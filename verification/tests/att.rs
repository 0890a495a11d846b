//! Conversations over the attribute protocol.
use flexinput_btle::acl::{
    AttUuid, AttrInfo, ATT_ERROR_RESPONSE, ATT_WRITE_COMMAND, ATT_WRITE_REQUEST,
    ATT_WRITE_RESPONSE, CID_ATT,
};
use flexinput_btle::att::{
    answer_to, declaration_handles, read_characteristics, read_outcome, read_value, write_message,
    write_outcome, AttributeWalk, CharacteristicWalk, WalkVerdict,
};
use flexinput_btle::{AclPacket, Error};

fn att(payload: &[u8]) -> AclPacket {
    AclPacket { conn_handle: 0x40, cid: CID_ATT, payload: payload.to_vec() }
}

#[test]
fn input_reports_do_not_answer_a_request() {
    let read = [0x0A, 0x14, 0x00];
    assert_eq!(answer_to(att(&[0x0B, 7]), 0x40, &read, 0x0B), Some(vec![0x0B, 7]));
    assert_eq!(answer_to(att(&[0x1B, 0x0E, 0, 1]), 0x40, &read, 0x0B), None);
    assert_eq!(answer_to(att(&[0x0B, 7]), 0x41, &read, 0x0B), None);
    let refused = [ATT_ERROR_RESPONSE, 0x0A, 0x14, 0x00, 0x02];
    assert_eq!(answer_to(att(&refused), 0x40, &read, 0x0B), Some(refused.to_vec()));
    let others = [ATT_ERROR_RESPONSE, 0x12, 0x14, 0x00, 0x02];
    assert_eq!(answer_to(att(&others), 0x40, &read, 0x0B), None);
}

#[test]
fn a_walk_goes_on_behind_what_it_found() {
    let mut w = AttributeWalk::new();
    assert_eq!(w.request(), vec![0x04, 0x01, 0x00, 0xFF, 0xFF]);
    let page = vec![0x05, 0x01, 0x01, 0x00, 0x00, 0x28, 0x02, 0x00, 0x03, 0x28];
    assert_eq!(w.answer(Some(page)), WalkVerdict::More);
    assert_eq!(w.request(), vec![0x04, 0x03, 0x00, 0xFF, 0xFF]);
    assert_eq!(w.answer(Some(vec![0x01, 0x04, 0x03, 0x00, 0x0A])), WalkVerdict::Done);
    assert_eq!(
        w.found,
        vec![
            AttrInfo { handle: 1, uuid: AttUuid::Short(0x2800) },
            AttrInfo { handle: 2, uuid: AttUuid::Short(0x2803) },
        ]
    );
}

#[test]
fn silence_fails_a_walk_only_at_its_start() {
    let mut w = AttributeWalk::new();
    assert_eq!(
        w.answer(None),
        WalkVerdict::Failed(Error::Protocol(
            "no reply to Find Information Request within 2 s".to_string()
        ))
    );
    w.answer(Some(vec![0x05, 0x01, 0x01, 0x00, 0x00, 0x28]));
    assert_eq!(w.answer(None), WalkVerdict::Done);
}

#[test]
fn a_refusal_and_nonsense_fail_a_walk() {
    let mut w = AttributeWalk::new();
    assert_eq!(
        w.answer(Some(vec![0x01, 0x04, 0x01, 0x00, 0x02])),
        WalkVerdict::Failed(Error::Protocol(
            "Find Information refused: 0x02 Read Not Permitted".to_string()
        ))
    );
    assert_eq!(
        w.answer(Some(vec![0x05, 0x09])),
        WalkVerdict::Failed(Error::Protocol(
            "undecodable Find Information Response: [05, 09]".to_string()
        ))
    );
}

#[test]
fn the_last_handle_ends_a_walk() {
    let mut w = AttributeWalk::new();
    assert_eq!(w.answer(Some(vec![0x05, 0x01, 0xFF, 0xFF, 0x02, 0x29])), WalkVerdict::Done);
    assert_eq!(w.found.len(), 1);
}

#[test]
fn a_walk_makes_no_more_than_its_requests() {
    let mut w = AttributeWalk::new();
    let mut requests = 0;
    let mut h = 1u8;
    loop {
        requests += 1;
        match w.answer(Some(vec![0x05, 0x01, h, 0x00, 0x00, 0x28])) {
            WalkVerdict::More => h += 1,
            v => {
                assert_eq!(v, WalkVerdict::Done);
                break;
            }
        }
    }
    assert_eq!(requests, 64);
}

#[test]
fn declarations_are_walked_too() {
    let mut w = CharacteristicWalk::new();
    assert_eq!(w.request(), vec![0x08, 0x01, 0x00, 0xFF, 0xFF, 0x03, 0x28]);
    let page = vec![0x09, 0x07, 0x0D, 0x00, 0x10, 0x0E, 0x00, 0x02, 0x29];
    assert_eq!(w.answer(Some(page)), WalkVerdict::More);
    assert_eq!(w.start, 0x0E);
    assert_eq!((w.found[0].decl_handle, w.found[0].value_handle), (0x0D, 0x0E));
}

#[test]
fn a_read_ends_in_a_value_or_a_reason() {
    assert_eq!(read_outcome(Some(vec![0x0B, 1, 2])), Ok(Some(vec![1, 2])));
    assert_eq!(read_outcome(Some(vec![ATT_ERROR_RESPONSE, 0x0A, 0, 0, 2])), Err(2));
    assert_eq!(read_outcome(None), Ok(None));
    assert_eq!(read_value(Some(vec![0x0B, 1, 2])), Some(vec![1, 2]));
    assert_eq!(read_value(Some(vec![ATT_ERROR_RESPONSE, 0x0A, 0, 0, 2])), None);
}

#[test]
fn declarations_are_read_one_by_one() {
    let table = vec![
        AttrInfo { handle: 1, uuid: AttUuid::Short(0x2800) },
        AttrInfo { handle: 0x0D, uuid: AttUuid::Short(0x2803) },
        AttrInfo { handle: 0x0F, uuid: AttUuid::Short(0x2902) },
    ];
    assert_eq!(declaration_handles(&table), vec![0x0D]);
    let got = read_characteristics(&[
        (0x0D, Some(vec![0x10, 0x0E, 0x00, 0x02, 0x29])),
        (0x11, None),
        (0x13, Some(vec![1])),
    ]);
    assert_eq!(got.len(), 1);
    assert_eq!(got[0].value_handle, 0x0E);
}

#[test]
fn a_write_waits_for_an_answer_where_it_is_a_request() {
    assert_eq!(
        write_message(0x14, &[1, 2], ATT_WRITE_COMMAND),
        (vec![ATT_WRITE_COMMAND, 0x14, 0, 1, 2], false)
    );
    assert_eq!(
        write_message(0x14, &[1, 2], ATT_WRITE_REQUEST),
        (vec![ATT_WRITE_REQUEST, 0x14, 0, 1, 2], true)
    );
    assert_eq!(write_outcome(0x14, Some(vec![ATT_WRITE_RESPONSE])), Ok(()));
    assert!(write_outcome(0x14, Some(vec![ATT_ERROR_RESPONSE, 0x12, 0x14, 0, 3])).is_err());
    assert!(write_outcome(0x14, None).is_err());
}
