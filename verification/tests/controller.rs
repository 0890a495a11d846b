//! Talking to a Joy-Con 2.
use flexinput_btle::acl::CID_ATT;
use flexinput_btle::controller::{
    among, bonded_host, candidate_keys, cmd_frame, command_channel, command_message, derive_key,
    erased, find_new, flash_payload, host_key_payload, init_steps, input_mode_message,
    keep_trying, led_payload, nintendo_ids, register_key_payload, reply, response, restoring_steps, reverse16,
    second_key_payload, sensor_scales, set_host_payload, side_of, try_next_key, wait_encryption,
    waking_steps, Encryption, Found, SensorScales, HOST_KEY,
};
use flexinput_btle::hci::{AdvReport, Event, Opcode};
use flexinput_btle::recording::Side;
use flexinput_btle::AclPacket;

const G: f32 = 9.80665;

fn lsb_per_g(s: &SensorScales) -> f32 {
    G / f32::from_bits(s.accel_per_lsb)
}

fn lsb_per_dps(s: &SensorScales) -> f32 {
    1.0 / f32::from_bits(s.gyro_rad_per_lsb).to_degrees()
}

const SCALE_REPLY: [u8; 29] = [
    0x01, 0xc0, 0x03, 0x00, 0x00, 0xe7, 0xd0, 0x1c, 0x3b, 0x79, 0x22, 0xa0, 0x3a, 0x0a, 0xe8, 0x9c,
    0x42, 0x58, 0xa0, 0x0b, 0x42, 0x0a, 0xe8, 0x9c, 0x41, 0x58, 0xa0, 0x0b, 0x41,
];

#[test]
fn the_controller_states_the_accelerometer_scale_we_measured() {
    let s = sensor_scales(&SCALE_REPLY).expect("decodes");
    assert!(
        (lsb_per_g(&s) - 4096.0).abs() < 8.0,
        "accel scale {} LSB/g, expected ~4096",
        lsb_per_g(&s)
    );
    assert!((f32::from_bits(s.accel_range.unwrap()) / G - 8.0).abs() < 0.05);
}

#[test]
fn the_gyro_scale_is_the_pro_controller_figure_not_the_joycon_one() {
    let s = sensor_scales(&SCALE_REPLY).expect("decodes");
    assert!(
        (lsb_per_dps(&s) - 14.2857).abs() < 0.05,
        "gyro scale {} LSB per deg/s",
        lsb_per_dps(&s)
    );
    assert!((f32::from_bits(s.gyro_range.unwrap()).to_degrees() - 2000.0).abs() < 10.0);
}

#[test]
fn a_truncated_or_absurd_scale_block_is_rejected_rather_than_decoded() {
    assert!(sensor_scales(&SCALE_REPLY[..8]).is_none());
    assert!(sensor_scales(&[0u8; 29]).is_none());
}

#[test]
fn a_scale_that_is_no_positive_number_is_rejected() {
    for bad in [f32::INFINITY, f32::NAN, -1.0, -0.0, 0.0] {
        let mut reply = SCALE_REPLY;
        reply[9..13].copy_from_slice(&bad.to_le_bytes());
        assert!(sensor_scales(&reply).is_none(), "{bad}");
    }
    let s = sensor_scales(&SCALE_REPLY[..13]).expect("the ranges are optional");
    assert_eq!((s.accel_range, s.gyro_range), (None, None));
}

fn advert(address: [u8; 6], md: &[u8]) -> AdvReport {
    let mut data = vec![md.len() as u8 + 1, 0xFF];
    data.extend_from_slice(md);
    AdvReport { event_type: 0, address_type: 1, address, data, rssi: -40 }
}

const RIGHT: [u8; 18] = [
    0x53, 0x05, 1, 0, 3, 0x7E, 0x05, 0x66, 0x20, 0, 1, 0, 6, 5, 4, 3, 2, 1,
];

#[test]
fn a_controller_is_known_by_its_advertisement() {
    assert_eq!(nintendo_ids(&RIGHT), Some((0x057E, 0x2066)));
    assert_eq!(nintendo_ids(&RIGHT[..8]), None);
    assert_eq!(bonded_host(&RIGHT), Some([1, 2, 3, 4, 5, 6]));
    assert_eq!(bonded_host(&RIGHT[..17]), None);
    assert_eq!(side_of(0x2066), Side::Right);
    assert_eq!(side_of(0x2067), Side::Left);
    let r = advert([7; 6], &RIGHT);
    assert_eq!(
        find_new(&r, &[]),
        Some(Found { address: [7; 6], address_type: 1, pid: 0x2066 })
    );
    assert_eq!(find_new(&r, &[[7; 6]]), None, "it is known already");
    let mut other = RIGHT;
    other[0] = 0x4C;
    assert_eq!(find_new(&advert([7; 6], &other), &[]), None);
}

#[test]
fn commands_have_their_bytes() {
    assert_eq!(
        cmd_frame(0x09, 0x07, &[1, 2]),
        vec![0x09, 0x91, 0x01, 0x07, 0x00, 2, 0, 0, 1, 2]
    );
    let m = command_message(0x09, 0x07, &[1, 2], true);
    assert_eq!(m[..17], [0; 17]);
    assert_eq!(m[17..], cmd_frame(0x09, 0x07, &[1, 2]));
    assert_eq!(command_message(9, 7, &[], false), cmd_frame(9, 7, &[]));
    assert_eq!(input_mode_message(false), vec![1, 0, 0, 0, 0, 0, 0, 0, 0, 0x03, 0x30]);
    assert_eq!(
        flash_payload(0x0001_3080, 0x40),
        vec![0x40, 0x7E, 0, 0, 0x80, 0x30, 0x01, 0x00]
    );
    assert_eq!(led_payload(3), vec![3, 0, 0, 0, 0, 0, 0, 0]);
    assert_eq!(command_channel(true), (0x0016, true));
    assert_eq!(command_channel(false), (0x0014, false));
}

fn notify(handle: u8, value: &[u8]) -> AclPacket {
    let mut payload = vec![0x1B, handle, 0];
    payload.extend_from_slice(value);
    AclPacket { conn_handle: 0x40, cid: CID_ATT, payload }
}

#[test]
fn a_reply_is_told_from_input() {
    let p = notify(0x1A, &[0x02, 0x01, 0, 4, 0, 2, 0, 0, 0xAA, 0xBB]);
    assert_eq!(reply(&p, &[0x41, 0x40], 0x02), Some((0x01, vec![0xAA, 0xBB])));
    assert_eq!(reply(&p, &[0x41], 0x02), None);
    assert_eq!(reply(&p, &[0x40], 0x03), None);
    assert_eq!(reply(&notify(0x0E, &[0x02; 10]), &[0x40], 0x02), None);
    assert!(among(&[1, 2], 2) && !among(&[1, 2], 3));

    let r = response(&p, 0x40).expect("a response");
    assert_eq!((r.per_side, r.header, r.data), (false, Some((2, 1, 2)), vec![0xAA, 0xBB]));
    let r = response(&notify(0x1E, &[1, 2]), 0x40).expect("a short one");
    assert_eq!((r.per_side, r.header, r.data), (true, None, vec![1, 2]));
    assert!(response(&p, 0x41).is_none());
}

#[test]
fn sequences_are_in_order() {
    let ids = |v: Vec<(u8, u8, Vec<u8>)>| -> Vec<(u8, u8)> {
        v.iter().map(|s| (s.0, s.1)).collect()
    };
    assert_eq!(
        ids(init_steps(0x2f)),
        vec![
            (0x03, 0x0d),
            (0x07, 0x01),
            (0x16, 0x01),
            (0x15, 0x03),
            (0x0c, 0x02),
            (0x11, 0x03),
            (0x0a, 0x08),
            (0x0c, 0x04),
            (0x03, 0x0a),
            (0x10, 0x01),
            (0x01, 0x0c),
            (0x01, 0x01),
            (0x09, 0x07),
        ]
    );
    assert_eq!(init_steps(0x2f)[4].2, vec![0x2f, 0, 0, 0]);
    assert_eq!(
        ids(waking_steps(0x94)),
        vec![(7, 1), (0x10, 1), (0x16, 1), (9, 7), (0x0C, 2), (0x0C, 4)]
    );
    assert_eq!(ids(restoring_steps()), vec![(7, 1), (0x10, 1), (0x16, 1), (0x0C, 2), (0x0C, 4)]);
}

#[test]
fn a_key_is_derived_from_what_the_device_offers() {
    let mut offered = vec![0x01];
    offered.extend_from_slice(&[0x5A; 16]);
    let k = derive_key(&offered).expect("long enough");
    for i in 0..16 {
        assert_eq!(k[i], HOST_KEY[i] ^ 0x5A);
        assert_eq!(k[i] ^ HOST_KEY[i], 0x5A, "and the device's is recovered");
    }
    assert_eq!(derive_key(&offered[..16]), None);
    assert_eq!(candidate_keys(&offered), vec![k, reverse16(&k), HOST_KEY]);
    assert_eq!(candidate_keys(&[]), vec![HOST_KEY]);
    assert_eq!(reverse16(&k)[0], k[15]);
    let p = register_key_payload([1, 2, 3, 4, 5, 6], &k);
    assert_eq!(p[..6], [6, 5, 4, 3, 2, 1]);
    assert_eq!(p[6..], reverse16(&k));
    assert_eq!(
        set_host_payload([1, 2, 3, 4, 5, 6]),
        vec![0, 2, 6, 5, 4, 3, 2, 1, 6, 5, 4, 3, 2, 1]
    );
    assert_eq!(host_key_payload().len(), 17);
    assert_eq!(second_key_payload()[..2], [0x00, 0x40]);
}

#[test]
fn what_came_of_encryption() {
    let on = Event::EncryptionChange { status: 0, conn_handle: 1, enabled: 1 };
    assert_eq!(wait_encryption(&on), Some(Encryption::Enabled));
    let refused = Event::EncryptionChange { status: 6, conn_handle: 1, enabled: 0 };
    assert_eq!(
        wait_encryption(&refused),
        Some(Encryption::Refused { status: 6, enabled: 0 })
    );
    let op = Opcode(Opcode::LE_ENABLE_ENCRYPTION);
    let rejected = Event::CommandStatus { status: 1, opcode: op };
    assert_eq!(wait_encryption(&rejected), Some(Encryption::CommandRejected(1)));
    assert_eq!(wait_encryption(&Event::CommandStatus { status: 0, opcode: op }), None);
    let gone = Event::DisconnectionComplete { conn_handle: 1, reason: 0x3D };
    assert_eq!(wait_encryption(&gone), Some(Encryption::Dropped { reason: 0x3D }));
    assert!(try_next_key(None));
    assert!(try_next_key(Some(Encryption::Refused { status: 6, enabled: 0 })));
    assert!(!try_next_key(Some(Encryption::Enabled)));
    assert!(!try_next_key(Some(Encryption::Dropped { reason: 0x3D })));
}

#[test]
fn flash_that_was_never_written() {
    assert!(erased(&[0xFF; 8]) && erased(&[0; 8]) && erased(&[]));
    assert!(!erased(&[0xFF, 0]));
}

#[test]
fn a_link_that_is_gone_takes_no_further_key() {
    assert!(!keep_trying(Some(Encryption::Enabled)));
    assert!(!keep_trying(Some(Encryption::Dropped { reason: 8 })));
    assert!(!keep_trying(Some(Encryption::Refused { status: 0xFF, enabled: 0 })));
    assert!(keep_trying(Some(Encryption::Refused { status: 6, enabled: 0 })));
    assert!(keep_trying(Some(Encryption::CommandRejected(0x0C))));
    assert!(keep_trying(None));
}
