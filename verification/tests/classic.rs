//! Classic devices that answer.
use flexinput_btle::classic::{
    fold_answers, major_class_name, peripheral_kind, rank_of, sort_rows, Heard, HidStream,
};
use flexinput_btle::hci::InquiryResult;
use flexinput_btle::l2cap::{encode_signal, CID_SIGNALLING, SIG_DISCONNECTION_REQUEST};
use flexinput_btle::AclPacket;

fn answer(n: u8, rssi: Option<i8>, cod: [u8; 3]) -> InquiryResult {
    InquiryResult {
        address: [n; 6],
        page_scan_repetition_mode: 1,
        class_of_device: cod,
        clock_offset: n as u16,
        rssi,
    }
}

const PAD: [u8; 3] = [0x08, 0x05, 0x00];
const HEADSET: [u8; 3] = [0x04, 0x04, 0x24];

#[test]
fn repeated_answers_fold_into_one_row() {
    let rows = fold_answers(&[
        answer(1, Some(-60), HEADSET),
        answer(2, None, PAD),
        answer(1, Some(-40), HEADSET),
        answer(1, Some(-50), HEADSET),
        answer(2, Some(-10), PAD),
    ]);
    assert_eq!(rows.len(), 2);
    assert_eq!((rows[0].address, rows[0].hits, rows[0].rssi), ([1; 6], 3, Some(-40)));
    assert_eq!((rows[1].hits, rows[1].rssi), (2, None), "the first answer had no strength");
}

#[test]
fn gamepads_come_first_then_the_strongest() {
    let rows = fold_answers(&[
        answer(1, Some(-30), HEADSET),
        answer(2, Some(-70), PAD),
        answer(3, Some(-50), PAD),
        answer(4, None, PAD),
    ]);
    assert_eq!(rank_of(&rows[0]), 1030);
    assert_eq!(rank_of(&rows[3]), 127);
    let order: Vec<u8> = sort_rows(rows).iter().map(|r| r.address[0]).collect();
    assert_eq!(order, vec![3, 2, 4, 1]);
}

#[test]
fn classes_have_names() {
    assert_eq!(peripheral_kind(PAD), "gamepad");
    assert_eq!(peripheral_kind([0x04, 0x05, 0]), "joystick");
    assert_eq!(major_class_name(0x05), "Peripheral");
    assert_ne!(major_class_name(0x04), major_class_name(0x01));
}

#[test]
fn a_stream_shows_what_changed() {
    let mut s = HidStream::new(0x0B, 0x41);
    let report = |b: u8| AclPacket { conn_handle: 0x0B, cid: 0x41, payload: vec![0xA1, b] };
    for _ in 0..3 {
        assert_eq!(s.packet(&report(1)), Heard::Report, "the first three are shown anyway");
    }
    assert_eq!(s.packet(&report(1)), Heard::Repeated);
    assert_eq!(s.packet(&report(2)), Heard::Report);
    assert_eq!(s.count, 5);
    let other = AclPacket { conn_handle: 0x0C, cid: 0x41, payload: vec![0xA1, 9] };
    assert_eq!(s.packet(&other), Heard::Nothing);
    let close = AclPacket {
        conn_handle: 0x0B,
        cid: CID_SIGNALLING,
        payload: encode_signal(SIG_DISCONNECTION_REQUEST, 1, &[0, 0, 0, 0]),
    };
    assert_eq!(s.packet(&close), Heard::Closed);
}
