//! Recordings and captures.
use flexinput_btle::acl::CID_ATT;
use flexinput_btle::fields::Codec;
use flexinput_btle::recording::{
    decode_capture, encode_capture, gyro_candidate, halves, in_accel, is_live, live_count,
    live_map, packed_candidate, rec_phases, stream_shape, strongest_offset, tail_nonzero, Link,
    Recording, Side, StreamShape,
};
use flexinput_btle::AclPacket;

const LEFT: Link = Link { conn: 0x40, side: Side::Left, att: 0x0E };
const RIGHT: Link = Link { conn: 0x41, side: Side::Right, att: 0x0E };
const COMMON: Link = Link { conn: 0x40, side: Side::Left, att: 0x0A };

fn notify(conn: u16, handle: u8, value: &[u8]) -> AclPacket {
    let mut payload = vec![0x1B, handle, 0];
    payload.extend_from_slice(value);
    AclPacket { conn_handle: conn, cid: CID_ATT, payload }
}

#[test]
fn streams_are_told_apart_by_both_handles() {
    assert_eq!(LEFT.label(), "LEFT@0x000e");
    assert_eq!(halves(&[LEFT, COMMON, RIGHT]), vec![(0x40, Side::Left), (0x41, Side::Right)]);
    let mut r = Recording::of(&[LEFT, RIGHT, COMMON]);
    r.packet(&notify(0x40, 0x0E, &[1]));
    r.packet(&notify(0x41, 0x0E, &[2]));
    r.packet(&notify(0x40, 0x0A, &[3]));
    r.packet(&notify(0x40, 0x0E, &[4]));
    r.packet(&notify(0x42, 0x0E, &[5]));
    r.packet(&AclPacket { conn_handle: 0x40, cid: 5, payload: vec![0x1B, 0x0E, 0, 6] });
    assert_eq!(r.frames(0x40, 0x0E), Some(&vec![vec![1], vec![4]]));
    assert_eq!(r.frames(0x41, 0x0E), Some(&vec![vec![2]]));
    assert_eq!(r.frames(0x40, 0x0A), Some(&vec![vec![3]]));
    assert_eq!(r.frames(0x42, 0x0E), None);
    assert_eq!(
        rec_phases(&[r, Recording::new()], 0x40, 0x0E),
        vec![vec![vec![1], vec![4]], vec![]]
    );
}

#[test]
fn a_byte_is_live_where_it_varies() {
    let frames = vec![vec![1, 2, 3], vec![1, 5, 3], vec![1, 2]];
    assert!(!is_live(&frames, 0));
    assert!(is_live(&frames, 1));
    assert_eq!(live_count(&frames, 0, 2), 1);
    assert_eq!(live_map(&frames[..2], 3), ".#.");
}

#[test]
fn the_shape_of_a_stream() {
    let mut a = vec![0u8; 63];
    a[14] = 30;
    let mut b = a.clone();
    b[3] = 9;
    b[50] = 1;
    assert_eq!(
        stream_shape(Side::Left, &[a.clone(), b.clone()]),
        Some(StreamShape {
            frames: 2,
            width: 63,
            motion_len: 30,
            live: 2,
            tail_live: 1,
            tail_nonzero: true,
        })
    );
    assert_eq!(stream_shape(Side::Right, &[a.clone()]).expect("a shape").motion_len, 0);
    assert_eq!(stream_shape(Side::Left, &[]), None);
    assert!(tail_nonzero(&[b]) && !tail_nonzero(&[a]));
}

fn sweep(values: &[i16]) -> Vec<Vec<u8>> {
    values
        .iter()
        .map(|v| {
            let mut f = vec![0u8; 8];
            f[4..6].copy_from_slice(&v.to_le_bytes());
            f
        })
        .collect()
}

#[test]
fn the_strongest_field_is_found() {
    let moving = sweep(&[-1000, 0, 1000]);
    let rest = sweep(&[0, 5]);
    assert_eq!(strongest_offset(&moving, &rest, 0, 7).map(|r| r.0 == 4 || r.0 == 3), Some(true));
    assert_eq!(strongest_offset(&rest, &rest, 0, 7), None);
    assert_eq!(strongest_offset(&moving, &rest, 5, 5), None);
}

#[test]
fn a_gyroscope_moves_under_rotation_and_rests_otherwise() {
    let phases = vec![
        sweep(&[0, 2]),
        sweep(&[-300, 300]),
        sweep(&[-10, 10]),
        sweep(&[0, 0]),
    ];
    let c = gyro_candidate(&phases, Codec::I16Le, 4, None).expect("a candidate");
    assert_eq!((c.off, c.reach, c.rest), (4, [600, 20, 0], 2));
    assert_eq!(gyro_candidate(&phases, Codec::I16Le, 4, Some((0, 2))), None, "overlaps");
    assert_eq!(gyro_candidate(&phases, Codec::I16Le, 0, None), None, "does not move");
    assert!(gyro_candidate(&phases, Codec::I16Le, 4, Some((6, 2))).is_some());
}

#[test]
fn a_capture_is_read_back() {
    let links = vec![LEFT, RIGHT];
    let mut r = Recording::of(&links);
    r.packet(&notify(0x40, 0x0E, &[1, 2, 3]));
    r.packet(&notify(0x41, 0x0E, &[9]));
    let mut s = Recording::of(&links);
    s.packet(&notify(0x40, 0x0E, &[]));
    let bytes = encode_capture(&links, &[r, s]);
    assert_eq!(bytes[0], 0xFE);
    let (back, phases) = decode_capture(&bytes).expect("decodes");
    assert_eq!(back, links);
    assert_eq!(phases.len(), 2);
    assert_eq!(phases[0].frames(0x40, 0x0E), Some(&vec![vec![1, 2, 3]]));
    assert_eq!(phases[0].frames(0x41, 0x0E), Some(&vec![vec![9]]));
    assert_eq!(phases[1].frames(0x40, 0x0E), Some(&vec![vec![]]));
    assert!(decode_capture(&bytes[..bytes.len() - 1]).is_none());
    assert!(decode_capture(&[]).is_none());
}

#[test]
fn an_older_capture_is_read_too() {
    let bytes = [1, 2, 0, 1, 0, 0, 0, 2, 7, 8, 1, 1, 0, 0, 0, 1, 9];
    let (links, phases) = decode_capture(&bytes).expect("decodes");
    assert_eq!(links.len(), 2);
    assert_eq!((links[0].side, links[1].side), (Side::Left, Side::Right));
    assert_eq!(phases.len(), 1);
    let f = phases[0].frames(links[0].conn, links[0].att).expect("the left stream");
    assert_eq!(f, &vec![vec![7, 8]]);
}

#[test]
fn a_packed_candidate_moves_in_a_sweep_and_rests_otherwise() {
    let still = vec![vec![0, 10], vec![0, 11]];
    let moved = vec![vec![0, 0], vec![0, 60]];
    let c = packed_candidate(&[still.clone(), moved.clone(), still.clone(), still.clone()], 1, 0, 8);
    assert_eq!((c.reach, c.rest, c.moves), ([60, 1, 1], 1, true));
    let c = packed_candidate(&[moved.clone(), moved.clone(), still.clone(), still.clone()], 1, 0, 8);
    assert!(!c.moves, "it did not rest");
    let c = packed_candidate(&[still.clone(), still.clone(), still.clone(), still.clone()], 1, 0, 8);
    assert!(!c.moves, "it did not reach an eighth of its range");
    let wide = vec![vec![0, 0x80], vec![0, 0x7F]];
    let c = packed_candidate(&[still.clone(), still.clone(), wide, still], 1, 0, 8);
    assert_eq!((c.reach[1], c.moves), (255, false), "noise fills the range");
}

#[test]
fn the_accelerometer_is_told_from_what_lies_between_its_fields() {
    assert!(in_accel(30, 2, 31, 4), "its last byte is the first of a field");
    assert!(!in_accel(29, 2, 31, 4));
    assert!(in_accel(32, 3, 31, 4));
    assert!(!in_accel(33, 2, 31, 4), "between two fields");
    assert!(in_accel(39, 2, 31, 4) && in_accel(40, 2, 31, 4));
    assert!(!in_accel(41, 2, 31, 4));
}

#[test]
fn a_stream_that_is_named_twice_is_there_once() {
    let mut r = Recording::of(&[LEFT, RIGHT, LEFT]);
    assert_eq!(r.streams.len(), 2);
    r.packet(&notify(0x40, 0x0E, &[1]));
    r.set(0x40, 0x0E, vec![]);
    assert_eq!(r.streams.len(), 2);
}
