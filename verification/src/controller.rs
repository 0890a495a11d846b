//! Talking to a Joy-Con 2: finding one, giving it commands, reading its replies, and
//! agreeing on a key.
use vstd::prelude::*;
use crate::acl;
use crate::acl::{parse_notification, AclPacket, CID_ATT};
use crate::bytes;
use crate::bytes::{copy_range, join16, join32, len8, push32, push_all, reverse6, six_at};
use crate::commands::same_address;
use crate::hci;
use crate::hci::{AdvReport, Event, Opcode};
use crate::joycon;
use crate::joycon::{
    HANDLE_CMD_RESPONSE, HANDLE_CMD_RESPONSE_PERSIDE, HANDLE_CMD_WRITE, HANDLE_CMD_WRITE_COMMON,
};
use crate::recording::Side;

verus! {

/// Nintendo's company id, as it appears in advertisements.
pub const NINTENDO_COMPANY_ID: u16 = 0x0553;

/// Product id of the right half.
pub const PID_RIGHT: u16 = 0x2066;

/// The vendor and product that the manufacturer data of an advertisement names, where it
/// is Nintendo's.
pub open spec fn nintendo_ids_of(md: Seq<u8>) -> Option<(u16, u16)> {
    if md.len() >= 9 && bytes::u16_at(md, 0) == NINTENDO_COMPANY_ID {
        Some((bytes::u16_at(md, 5), bytes::u16_at(md, 7)))
    } else {
        None
    }
}

/// Read the vendor and product out of manufacturer data, where it is Nintendo's.
pub fn nintendo_ids(md: &[u8]) -> (r: Option<(u16, u16)>)
    ensures
        r == nintendo_ids_of(md@),
{
    if md.len() >= 9 && join16(md[0], md[1]) == NINTENDO_COMPANY_ID {
        Some((join16(md[5], md[6]), join16(md[7], md[8])))
    } else {
        None
    }
}

/// The half that a product id is.
pub open spec fn half_of(pid: u16) -> Side {
    if pid == PID_RIGHT {
        Side::Right
    } else {
        Side::Left
    }
}

/// The half that a product id is.
pub fn side_of(pid: u16) -> (s: Side)
    ensures
        s == half_of(pid),
{
    if pid == PID_RIGHT {
        Side::Right
    } else {
        Side::Left
    }
}

/// The host that a controller is bonded to, out of its advertisement: real state, which
/// changes only where a bond is written. All zeros means that it is not bonded.
pub open spec fn bonded_host_of(md: Seq<u8>) -> Option<Seq<u8>> {
    if md.len() < 18 {
        None
    } else {
        Some(bytes::reversed(md.subrange(12, 18)))
    }
}

/// Read the bonded host out of manufacturer data.
pub fn bonded_host(md: &[u8]) -> (r: Option<[u8; 6]>)
    ensures
        match r {
            Some(a) => bonded_host_of(md@) == Some(a@),
            None => bonded_host_of(md@) is None,
        },
{
    if md.len() < 18 {
        return None;
    }
    Some(reverse6(six_at(md, 12)))
}

/// A controller that advertises.
#[derive(Debug, Clone, Copy, PartialEq, Eq)]
pub struct Found {
    pub address: [u8; 6],
    pub address_type: u8,
    pub pid: u16,
}

/// Whether an address is among those that are known.
pub open spec fn is_known(known: Seq<[u8; 6]>, address: Seq<u8>) -> bool {
    exists|i: int| 0 <= i < known.len() && (#[trigger] known[i])@ == address
}

/// The product of a controller that advertises and is not known yet.
pub open spec fn newcomer(r: hci::AdvReportView, known: Seq<[u8; 6]>) -> Option<u16> {
    match hci::manufacturer_data_of(r.data) {
        Some(md) => match nintendo_ids_of(md) {
            Some((_, pid)) => if is_known(known, r.address) {
                None
            } else {
                Some(pid)
            },
            None => None,
        },
        None => None,
    }
}

/// The controller that advertises, where it is one and is not known yet.
pub fn find_new(r: &AdvReport, known: &[[u8; 6]]) -> (f: Option<Found>)
    ensures
        match f {
            Some(f) => newcomer(r@, known@) == Some(f.pid) && f.address@ == r@.address
                && f.address_type == r@.address_type,
            None => newcomer(r@, known@) is None,
        },
{
    let pid: u16 = match r.manufacturer_data() {
        Some(md) => match nintendo_ids(md) {
            Some((_, pid)) => pid,
            None => {
                return None;
            },
        },
        None => {
            return None;
        },
    };
    let mut i: usize = 0;
    while i < known.len()
        invariant
            i <= known@.len(),
            forall|j: int| 0 <= j < i ==> (#[trigger] known@[j])@ != r@.address,
        decreases known@.len() - i,
    {
        if same_address(&known[i], &r.address) {
            assert(known@[i as int]@ == r@.address);
            return None;
        }
        i += 1;
    }
    Some(Found { address: r.address, address_type: r.address_type, pid })
}

/// Length of what stands before a command on the channel that rumble shares: a report id
/// and the rumble region.
pub const PREFIX: usize = 17;

/// A command: its number, its direction, its transport, its subcommand, and its data
/// behind their length.
pub open spec fn command_body(cmd: u8, sub: u8, data: Seq<u8>) -> Seq<u8> {
    seq![cmd, 0x91u8, 0x01u8, sub, 0x00u8, bytes::low8(data.len()), 0x00u8, 0x00u8] + data
}

/// What stands before a command, where anything does.
pub open spec fn prefix_of(prefixed: bool) -> Seq<u8> {
    Seq::new(
        if prefixed {
            PREFIX as nat
        } else {
            0
        },
        |i: int| 0u8,
    )
}

/// Start a message, with or without the prefix.
fn start_message(prefixed: bool) -> (v: Vec<u8>)
    ensures
        v@ == prefix_of(prefixed),
{
    let mut v: Vec<u8> = Vec::new();
    if prefixed {
        let mut i: usize = 0;
        while i < PREFIX
            invariant
                i <= PREFIX,
                v@.len() == i,
                forall|j: int| 0 <= j < i ==> v@[j] == 0,
            decreases PREFIX - i,
        {
            v.push(0);
            i += 1;
        }
    }
    assert(v@ =~= prefix_of(prefixed));
    v
}

/// Build a command, without a prefix.
pub fn cmd_frame(cmd: u8, sub: u8, data: &[u8]) -> (v: Vec<u8>)
    ensures
        v@ == command_body(cmd, sub, data@),
{
    let head: [u8; 8] = [cmd, 0x91, 0x01, sub, 0x00, len8(data.len()), 0x00, 0x00];
    let mut v: Vec<u8> = Vec::new();
    push_all(&mut v, head.as_slice());
    assert(v@ =~= seq![
        cmd,
        0x91u8,
        0x01u8,
        sub,
        0x00u8,
        bytes::low8(data@.len()),
        0x00u8,
        0x00u8,
    ]);
    push_all(&mut v, data);
    v
}

/// Build a command as it goes to a channel.
pub fn command_message(cmd: u8, sub: u8, data: &[u8], prefixed: bool) -> (v: Vec<u8>)
    ensures
        v@ == prefix_of(prefixed) + command_body(cmd, sub, data@),
{
    let mut v = start_message(prefixed);
    let body = cmd_frame(cmd, sub, data);
    push_all(&mut v, body.as_slice());
    v
}

/// The message that asks for the report layout with both sensors. It is written as it is,
/// not as a command.
pub open spec fn input_mode_body() -> Seq<u8> {
    seq![0x01u8, 0, 0, 0, 0, 0, 0, 0, 0, 0x03, 0x30]
}

/// Build the message that asks for the report layout with both sensors.
pub fn input_mode_message(prefixed: bool) -> (v: Vec<u8>)
    ensures
        v@ == prefix_of(prefixed) + input_mode_body(),
{
    let mode: [u8; 11] = [0x01, 0, 0, 0, 0, 0, 0, 0, 0, 0x03, 0x30];
    assert(mode@ =~= input_mode_body());
    let mut v = start_message(prefixed);
    push_all(&mut v, mode.as_slice());
    v
}

/// The data that reads controller flash.
pub open spec fn flash_data(addr: u32, size: u8) -> Seq<u8> {
    seq![size, 0x7Eu8, 0x00u8, 0x00u8] + bytes::le32(addr)
}

/// The payload that reads controller flash.
pub fn flash_payload(addr: u32, size: u8) -> (v: Vec<u8>)
    ensures
        v@ == flash_data(addr, size),
{
    let head: [u8; 4] = [size, 0x7E, 0x00, 0x00];
    let mut v: Vec<u8> = Vec::new();
    push_all(&mut v, head.as_slice());
    assert(v@ =~= seq![size, 0x7Eu8, 0x00u8, 0x00u8]);
    push32(&mut v, addr);
    v
}

/// The channel that commands go to, and whether they carry the prefix there.
pub open spec fn channel_of(per_side: bool) -> (u16, bool) {
    if per_side {
        (HANDLE_CMD_WRITE, true)
    } else {
        (HANDLE_CMD_WRITE_COMMON, false)
    }
}

/// The channel that commands go to, and whether they carry the prefix there: only the
/// channel of one side does.
pub fn command_channel(per_side: bool) -> (r: (u16, bool))
    ensures
        r == channel_of(per_side),
{
    if per_side {
        (HANDLE_CMD_WRITE, true)
    } else {
        (HANDLE_CMD_WRITE_COMMON, false)
    }
}

/// The reply to a command that a notification carries: its status and its data.
pub open spec fn reply_in(value: Seq<u8>, cmd: u8) -> Option<(u8, Seq<u8>)> {
    if value.len() >= 8 && value[0] == cmd {
        Some((value[1], value.skip(8)))
    } else {
        None
    }
}

/// The reply to a command that a packet carries on one of some links. Input reports pour
/// in meanwhile: only the response channel matters, and only a reply to that command.
pub open spec fn reply_of(p: acl::AclPacketView, conns: Seq<u16>, cmd: u8) -> Option<(u8, Seq<u8>)> {
    if p.cid != CID_ATT || !conns.contains(p.conn_handle) {
        None
    } else {
        match acl::notification_of(p.payload) {
            Some(n) => if n.handle == HANDLE_CMD_RESPONSE {
                reply_in(n.value, cmd)
            } else {
                None
            },
            None => None,
        }
    }
}

/// Whether a link is one of some.
pub fn among(conns: &[u16], conn: u16) -> (r: bool)
    ensures
        r == conns@.contains(conn),
{
    let mut i: usize = 0;
    while i < conns.len()
        invariant
            i <= conns@.len(),
            forall|j: int| 0 <= j < i ==> conns@[j] != conn,
        decreases conns@.len() - i,
    {
        if conns[i] == conn {
            assert(conns@[i as int] == conn);
            return true;
        }
        i += 1;
    }
    false
}

/// A reply that may have come.
pub open spec fn reply_view(r: Option<(u8, Vec<u8>)>) -> Option<(u8, Seq<u8>)> {
    match r {
        Some((status, data)) => Some((status, data@)),
        None => None,
    }
}

/// The reply to a command, where a packet on one of some links is that.
pub fn reply(p: &AclPacket, conns: &[u16], cmd: u8) -> (r: Option<(u8, Vec<u8>)>)
    ensures
        reply_view(r) == reply_of(p@, conns@, cmd),
{
    if p.cid != CID_ATT || !among(conns, p.conn_handle) {
        return None;
    }
    match parse_notification(p.payload.as_slice()) {
        Some(n) => {
            if n.handle == HANDLE_CMD_RESPONSE && n.value.len() >= 8 && n.value[0] == cmd {
                let data = copy_range(n.value.as_slice(), 8, n.value.len());
                assert(data@ =~= n.value@.skip(8));
                Some((n.value[1], data))
            } else {
                None
            }
        },
        None => None,
    }
}

/// Something that came back on a response channel.
#[derive(Debug, Clone, PartialEq, Eq)]
pub struct Response {
    /// Whether it came on the channel of one side, rather than on the common one.
    pub per_side: bool,
    /// Its header, where it is long enough to have one: the command, the status, and how
    /// much data it says that it carries.
    pub header: Option<(u8, u8, u8)>,
    /// Its data, as much as arrived of what it says; or all of it where it has no header.
    pub data: Vec<u8>,
}

/// A [`Response`] with its data as a sequence.
#[verifier::ext_equal]
pub struct ResponseView {
    pub per_side: bool,
    pub header: Option<(u8, u8, u8)>,
    pub data: Seq<u8>,
}

impl View for Response {
    type V = ResponseView;

    open spec fn view(&self) -> ResponseView {
        ResponseView { per_side: self.per_side, header: self.header, data: self.data@ }
    }
}

/// The response that a packet on a link carries, on either channel.
pub open spec fn response_of(p: acl::AclPacketView, conn: u16) -> Option<ResponseView> {
    if p.cid != CID_ATT || p.conn_handle != conn {
        None
    } else {
        match acl::notification_of(p.payload) {
            Some(n) => if n.handle != HANDLE_CMD_RESPONSE && n.handle
                != HANDLE_CMD_RESPONSE_PERSIDE {
                None
            } else {
                let v = n.value;
                let per_side = n.handle != HANDLE_CMD_RESPONSE;
                if v.len() < 8 {
                    Some(ResponseView { per_side, header: None, data: v })
                } else {
                    let end = if 8 + v[5] < v.len() {
                        8 + v[5]
                    } else {
                        v.len() as int
                    };
                    Some(
                        ResponseView {
                            per_side,
                            header: Some((v[0], v[1], v[5])),
                            data: v.subrange(8, end),
                        },
                    )
                }
            },
            None => None,
        }
    }
}

/// Read the response that a packet on a link carries.
pub fn response(p: &AclPacket, conn: u16) -> (r: Option<Response>)
    ensures
        match r {
            Some(r) => response_of(p@, conn) == Some(r@),
            None => response_of(p@, conn) is None,
        },
{
    if p.cid != CID_ATT || p.conn_handle != conn {
        return None;
    }
    let n = match parse_notification(p.payload.as_slice()) {
        Some(n) => n,
        None => {
            return None;
        },
    };
    if n.handle != HANDLE_CMD_RESPONSE && n.handle != HANDLE_CMD_RESPONSE_PERSIDE {
        return None;
    }
    let per_side: bool = n.handle != HANDLE_CMD_RESPONSE;
    if n.value.len() < 8 {
        return Some(Response { per_side, header: None, data: n.value });
    }
    let said: usize = 8 + n.value[5] as usize;
    let end: usize = if said < n.value.len() {
        said
    } else {
        n.value.len()
    };
    let data = copy_range(n.value.as_slice(), 8, end);
    Some(Response { per_side, header: Some((n.value[0], n.value[1], n.value[5])), data })
}

/// A command of a sequence: its number, its subcommand, and its data.
pub type Step = (u8, u8, Vec<u8>);

/// The steps of `all`, each with its data as a sequence.
pub open spec fn step_views(all: Seq<Step>) -> Seq<(u8, u8, Seq<u8>)> {
    all.map_values(|s: Step| (s.0, s.1, s.2@))
}

/// Append a step.
fn push_step(all: &mut Vec<Step>, cmd: u8, sub: u8, data: &[u8])
    ensures
        step_views(final(all)@) == step_views(old(all)@).push((cmd, sub, data@)),
{
    let ghost before = all@;
    let d = vstd::slice::slice_to_vec(data);
    let ghost dv = d@;
    all.push((cmd, sub, d));
    assert(step_views(all@) =~= step_views(before).push((cmd, sub, dv)));
}

/// The feature mask of a probe: every sensor behind one gate.
pub const FEATURE_MASK: u8 = 0x2f;

/// The feature mask that an earlier sequence used.
pub const LEGACY_FEATURE_MASK: u8 = 0x37;

/// The feature mask of the probe that compares the two ways to frame a command.
pub const COMMON_FEATURE_MASK: u8 = 0x94;

/// Four bytes that carry a mask.
pub open spec fn mask_data(mask: u8) -> Seq<u8> {
    seq![mask, 0u8, 0u8, 0u8]
}

/// The sequence that wakes a controller up, in order.
pub open spec fn init_sequence(mask: u8) -> Seq<(u8, u8, Seq<u8>)> {
    seq![
        (0x03u8, 0x0du8, seq![0x01u8, 0x00, 0xff, 0xff, 0xff, 0xff, 0xff, 0xff]),
        (0x07u8, 0x01u8, seq![]),
        (0x16u8, 0x01u8, seq![]),
        (0x15u8, 0x03u8, seq![0x00u8]),
        (0x0cu8, 0x02u8, mask_data(mask)),
        (0x11u8, 0x03u8, seq![]),
        (
            0x0au8,
            0x08u8,
            seq![
                0x01u8,
                0xff,
                0xff,
                0xff,
                0xff,
                0xff,
                0xff,
                0xff,
                0xff,
                0x35,
                0x00,
                0x46,
                0x00,
                0x00,
                0x00,
                0x00,
                0x00,
                0x00,
                0x00,
                0x00,
            ],
        ),
        (0x0cu8, 0x04u8, mask_data(mask)),
        (0x03u8, 0x0au8, seq![0x09u8, 0x00, 0x00, 0x00]),
        (0x10u8, 0x01u8, seq![]),
        (0x01u8, 0x0cu8, seq![]),
        (0x01u8, 0x01u8, seq![0x00u8, 0x00, 0x00, 0x00]),
        (0x09u8, 0x07u8, led_data(0x01)),
    ]
}

/// The data that lights player LEDs.
pub open spec fn led_data(pattern: u8) -> Seq<u8> {
    seq![pattern, 0u8, 0, 0, 0, 0, 0, 0]
}

/// The data that lights player LEDs.
pub fn led_payload(pattern: u8) -> (v: Vec<u8>)
    ensures
        v@ == led_data(pattern),
{
    let d: [u8; 8] = [pattern, 0, 0, 0, 0, 0, 0, 0];
    assert(d@ =~= led_data(pattern));
    vstd::slice::slice_to_vec(d.as_slice())
}

/// The sequence that wakes a controller up.
#[verifier::rlimit(30)]
pub fn init_steps(mask: u8) -> (v: Vec<Step>)
    ensures
        step_views(v@) == init_sequence(mask),
{
    let none: [u8; 0] = [];
    let first: [u8; 8] = [0x01, 0x00, 0xff, 0xff, 0xff, 0xff, 0xff, 0xff];
    let zero: [u8; 1] = [0x00];
    let features: [u8; 4] = [mask, 0, 0, 0];
    let vibration: [u8; 20] = [
        0x01,
        0xff,
        0xff,
        0xff,
        0xff,
        0xff,
        0xff,
        0xff,
        0xff,
        0x35,
        0x00,
        0x46,
        0x00,
        0x00,
        0x00,
        0x00,
        0x00,
        0x00,
        0x00,
        0x00,
    ];
    let nine: [u8; 4] = [0x09, 0x00, 0x00, 0x00];
    let zeros: [u8; 4] = [0x00, 0x00, 0x00, 0x00];
    let led: [u8; 8] = [0x01, 0, 0, 0, 0, 0, 0, 0];
    let mut v: Vec<Step> = Vec::new();
    push_step(&mut v, 0x03, 0x0d, first.as_slice());
    push_step(&mut v, 0x07, 0x01, none.as_slice());
    push_step(&mut v, 0x16, 0x01, none.as_slice());
    push_step(&mut v, 0x15, 0x03, zero.as_slice());
    push_step(&mut v, 0x0c, 0x02, features.as_slice());
    push_step(&mut v, 0x11, 0x03, none.as_slice());
    push_step(&mut v, 0x0a, 0x08, vibration.as_slice());
    push_step(&mut v, 0x0c, 0x04, features.as_slice());
    push_step(&mut v, 0x03, 0x0a, nine.as_slice());
    push_step(&mut v, 0x10, 0x01, none.as_slice());
    push_step(&mut v, 0x01, 0x0c, none.as_slice());
    push_step(&mut v, 0x01, 0x01, zeros.as_slice());
    push_step(&mut v, 0x09, 0x07, led.as_slice());
    proof {
        let s = init_sequence(mask);
        assert(none@ =~= seq![]);
        assert(first@ =~= s[0].2);
        assert(zero@ =~= s[3].2);
        assert(features@ =~= mask_data(mask));
        assert(vibration@ =~= s[6].2);
        assert(nine@ =~= s[8].2);
        assert(zeros@ =~= s[11].2);
        assert(led@ =~= led_data(0x01));
        assert(step_views(v@) =~= s);
    }
    v
}

/// The sequence that keeps a controller awake: a handshake, a player LED, and the sensors.
pub open spec fn waking_sequence(mask: u8) -> Seq<(u8, u8, Seq<u8>)> {
    seq![
        (0x07u8, 0x01u8, seq![]),
        (0x10u8, 0x01u8, seq![]),
        (0x16u8, 0x01u8, seq![]),
        (0x09u8, 0x07u8, led_data(0x01)),
        (0x0Cu8, 0x02u8, mask_data(mask)),
        (0x0Cu8, 0x04u8, mask_data(mask)),
    ]
}

/// The sequence that keeps a controller awake.
pub fn waking_steps(mask: u8) -> (v: Vec<Step>)
    ensures
        step_views(v@) == waking_sequence(mask),
{
    let none: [u8; 0] = [];
    let features: [u8; 4] = [mask, 0, 0, 0];
    let led: [u8; 8] = [0x01, 0, 0, 0, 0, 0, 0, 0];
    let mut v: Vec<Step> = Vec::new();
    push_step(&mut v, 0x07, 0x01, none.as_slice());
    push_step(&mut v, 0x10, 0x01, none.as_slice());
    push_step(&mut v, 0x16, 0x01, none.as_slice());
    push_step(&mut v, 0x09, 0x07, led.as_slice());
    push_step(&mut v, 0x0C, 0x02, features.as_slice());
    push_step(&mut v, 0x0C, 0x04, features.as_slice());
    proof {
        assert(none@ =~= seq![]);
        assert(features@ =~= mask_data(mask));
        assert(led@ =~= led_data(0x01));
        assert(step_views(v@) =~= waking_sequence(mask));
    }
    v
}

/// The sequence that restores the stream of one side.
pub open spec fn restoring_sequence() -> Seq<(u8, u8, Seq<u8>)> {
    seq![
        (0x07u8, 0x01u8, seq![]),
        (0x10u8, 0x01u8, seq![]),
        (0x16u8, 0x01u8, seq![]),
        (0x0Cu8, 0x02u8, mask_data(LEGACY_FEATURE_MASK)),
        (0x0Cu8, 0x04u8, mask_data(LEGACY_FEATURE_MASK)),
    ]
}

/// The sequence that restores the stream of one side.
pub fn restoring_steps() -> (v: Vec<Step>)
    ensures
        step_views(v@) == restoring_sequence(),
{
    let none: [u8; 0] = [];
    let features: [u8; 4] = [LEGACY_FEATURE_MASK, 0, 0, 0];
    let mut v: Vec<Step> = Vec::new();
    push_step(&mut v, 0x07, 0x01, none.as_slice());
    push_step(&mut v, 0x10, 0x01, none.as_slice());
    push_step(&mut v, 0x16, 0x01, none.as_slice());
    push_step(&mut v, 0x0C, 0x02, features.as_slice());
    push_step(&mut v, 0x0C, 0x04, features.as_slice());
    proof {
        assert(none@ =~= seq![]);
        assert(features@ =~= mask_data(LEGACY_FEATURE_MASK));
        assert(step_views(v@) =~= restoring_sequence());
    }
    v
}

/// The fixed key that the host contributes.
pub const HOST_KEY: [u8; 16] = [
    0xea,
    0xbd,
    0x47,
    0x13,
    0x89,
    0x35,
    0x42,
    0xc6,
    0x79,
    0xee,
    0x07,
    0xf2,
    0x53,
    0x2c,
    0x6c,
    0x31,
];

/// The fixed second key, behind its framing byte.
pub const SECOND_KEY: [u8; 17] = [
    0x00,
    0x40,
    0xb0,
    0x8a,
    0x5f,
    0xcd,
    0x1f,
    0x9b,
    0x41,
    0x12,
    0x5c,
    0xac,
    0xc6,
    0x3f,
    0x38,
    0xa0,
    0x73,
];

/// The data that tells a controller which host it talks to.
pub open spec fn set_host_data(host: Seq<u8>) -> Seq<u8> {
    seq![0x00u8, 0x02u8] + bytes::reversed(host) + bytes::reversed(host)
}

/// The data that tells a controller which host it talks to: the address in wire order,
/// twice.
pub fn set_host_payload(host: [u8; 6]) -> (v: Vec<u8>)
    ensures
        v@ == set_host_data(host@),
{
    let mut v: Vec<u8> = Vec::new();
    v.push(0x00);
    v.push(0x02);
    assert(v@ =~= seq![0x00u8, 0x02u8]);
    let wire = reverse6(host);
    push_all(&mut v, wire.as_slice());
    push_all(&mut v, wire.as_slice());
    v
}

/// The data that offers the host's key.
pub open spec fn host_key_data() -> Seq<u8> {
    seq![0x00u8] + HOST_KEY@
}

/// The data that offers the host's key.
pub fn host_key_payload() -> (v: Vec<u8>)
    ensures
        v@ == host_key_data(),
{
    let key: [u8; 16] = HOST_KEY;
    let mut v: Vec<u8> = Vec::new();
    v.push(0x00);
    assert(v@ =~= seq![0x00u8]);
    push_all(&mut v, key.as_slice());
    v
}

/// The data that offers the second key.
pub fn second_key_payload() -> (v: Vec<u8>)
    ensures
        v@ == SECOND_KEY@,
{
    let key: [u8; 17] = SECOND_KEY;
    vstd::slice::slice_to_vec(key.as_slice())
}

/// Two keys, combined byte by byte.
pub open spec fn combined(a: Seq<u8>, b: Seq<u8>) -> Seq<u8> {
    Seq::new(a.len(), |i: int| a[i] ^ b[i])
}

/// The key that the reply to an offered key leads to: the reply is a framing byte and the
/// device's key, which is combined with the host's.
pub open spec fn derived_key(reply: Seq<u8>) -> Option<Seq<u8>> {
    if reply.len() < 17 {
        None
    } else {
        Some(combined(HOST_KEY@, reply.subrange(1, 17)))
    }
}

/// Combine the host's key with byte `i` of what follows the framing byte.
fn mixed(reply: &[u8], i: usize) -> (b: u8)
    requires
        i < 16,
        reply@.len() >= 17,
    ensures
        b == HOST_KEY@[i as int] ^ reply@[i + 1],
{
    let key: [u8; 16] = HOST_KEY;
    key[i] ^ reply[i + 1]
}

/// Derive the key that the reply to an offered key leads to.
pub fn derive_key(reply: &[u8]) -> (r: Option<[u8; 16]>)
    ensures
        match r {
            Some(k) => derived_key(reply@) == Some(k@),
            None => derived_key(reply@) is None,
        },
{
    if reply.len() < 17 {
        return None;
    }
    let k: [u8; 16] = [
        mixed(reply, 0),
        mixed(reply, 1),
        mixed(reply, 2),
        mixed(reply, 3),
        mixed(reply, 4),
        mixed(reply, 5),
        mixed(reply, 6),
        mixed(reply, 7),
        mixed(reply, 8),
        mixed(reply, 9),
        mixed(reply, 10),
        mixed(reply, 11),
        mixed(reply, 12),
        mixed(reply, 13),
        mixed(reply, 14),
        mixed(reply, 15),
    ];
    assert(k@ =~= combined(HOST_KEY@, reply@.subrange(1, 17)));
    Some(k)
}

/// Both ends hold the same key: what was derived, combined with the host's key again, is
/// the device's.
pub proof fn the_device_key_can_be_recovered(reply: Seq<u8>)
    requires
        reply.len() >= 17,
    ensures
        combined(HOST_KEY@, derived_key(reply)->0) == reply.subrange(1, 17),
{
    let d = reply.subrange(1, 17);
    let k = derived_key(reply)->0;
    assert forall|i: int| 0 <= i < 16 implies combined(HOST_KEY@, k)[i] == d[i] by {
        let x = HOST_KEY@[i];
        let y = d[i];
        assert(x ^ (x ^ y) == y) by (bit_vector);
    }
    assert(combined(HOST_KEY@, k) =~= d);
}

/// Sixteen bytes back to front.
pub fn reverse16(k: &[u8; 16]) -> (r: [u8; 16])
    ensures
        r@ == bytes::reversed(k@),
{
    let r: [u8; 16] = [
        k[15],
        k[14],
        k[13],
        k[12],
        k[11],
        k[10],
        k[9],
        k[8],
        k[7],
        k[6],
        k[5],
        k[4],
        k[3],
        k[2],
        k[1],
        k[0],
    ];
    assert(r@ =~= bytes::reversed(k@));
    r
}

/// The data that tells a controller which key the live link uses.
pub open spec fn register_key_data(host: Seq<u8>, key: Seq<u8>) -> Seq<u8> {
    bytes::reversed(host) + bytes::reversed(key)
}

/// The data that tells a controller which key the live link uses: the host's address and
/// the key, both in wire order.
pub fn register_key_payload(host: [u8; 6], key: &[u8; 16]) -> (v: Vec<u8>)
    ensures
        v@ == register_key_data(host@, key@),
{
    let wire = reverse6(host);
    let mut v: Vec<u8> = vstd::slice::slice_to_vec(wire.as_slice());
    let key_wire = reverse16(key);
    push_all(&mut v, key_wire.as_slice());
    v
}

/// The keys that are worth trying, in order, given the reply to the offered key: the
/// derived one, the same back to front, and the host's as it is.
pub open spec fn candidate_keys_of(reply: Seq<u8>) -> Seq<Seq<u8>> {
    match derived_key(reply) {
        Some(k) => seq![k, bytes::reversed(k), HOST_KEY@],
        None => seq![HOST_KEY@],
    }
}

/// The keys of `all`, as sequences.
pub open spec fn key_views(all: Seq<[u8; 16]>) -> Seq<Seq<u8>> {
    all.map_values(|k: [u8; 16]| k@)
}

/// The keys that are worth trying, in order.
pub fn candidate_keys(reply: &[u8]) -> (v: Vec<[u8; 16]>)
    ensures
        key_views(v@) == candidate_keys_of(reply@),
{
    let mut v: Vec<[u8; 16]> = Vec::new();
    if let Some(k) = derive_key(reply) {
        v.push(k);
        v.push(reverse16(&k));
    }
    v.push(HOST_KEY);
    assert(key_views(v@) =~= candidate_keys_of(reply@));
    v
}

/// What came of asking for encryption.
#[derive(Debug, Clone, Copy, PartialEq, Eq, Structural)]
pub enum Encryption {
    Enabled,
    /// The controller refused the key.
    Refused { status: u8, enabled: u8 },
    /// The dongle refused the command: nothing reached the controller.
    CommandRejected(u8),
    /// The link went away: the key was wrong, and no other can be tried.
    Dropped { reason: u8 },
}

/// What an event says about encryption, where it decides anything. That the dongle
/// accepted the command decides nothing yet.
pub open spec fn encryption_of(e: hci::EventView) -> Option<Encryption> {
    match e {
        hci::EventView::EncryptionChange { status, enabled, .. } => Some(
            if status == 0 && enabled == 1 {
                Encryption::Enabled
            } else {
                Encryption::Refused { status, enabled }
            },
        ),
        hci::EventView::CommandStatus { status, opcode } => if opcode == Opcode(
            Opcode::LE_ENABLE_ENCRYPTION,
        ) && status != 0 {
            Some(Encryption::CommandRejected(status))
        } else {
            None
        },
        hci::EventView::DisconnectionComplete { reason, .. } => Some(
            Encryption::Dropped { reason },
        ),
        _ => None,
    }
}

/// Read what an event says about encryption.
pub fn wait_encryption(e: &Event) -> (r: Option<Encryption>)
    ensures
        r == encryption_of(e@),
{
    match e {
        Event::EncryptionChange { status, enabled, .. } => {
            if *status == 0 && *enabled == 1 {
                Some(Encryption::Enabled)
            } else {
                Some(Encryption::Refused { status: *status, enabled: *enabled })
            }
        },
        Event::CommandStatus { status, opcode } => {
            if opcode.0 == Opcode::LE_ENABLE_ENCRYPTION && *status != 0 {
                Some(Encryption::CommandRejected(*status))
            } else {
                None
            }
        },
        Event::DisconnectionComplete { reason, .. } => Some(
            Encryption::Dropped { reason: *reason },
        ),
        _ => None,
    }
}

/// Whether one more candidate for the key is worth trying on a link that is being surveyed.
pub open spec fn worth_trying(came: Option<Encryption>) -> bool {
    match came {
        Some(Encryption::Enabled) => false,
        Some(Encryption::Dropped { .. }) => false,
        Some(Encryption::Refused { status, .. }) => status != 0xFF,
        Some(Encryption::CommandRejected(_)) => true,
        None => true,
    }
}

/// Whether one more candidate for the key is worth trying on a link that is being surveyed:
/// not where it is encrypted, and not where it is gone. A status of `0xFF` counts as gone.
/// That the dongle did not take the command, or that nothing came, rules out nothing.
pub fn keep_trying(came: Option<Encryption>) -> (r: bool)
    ensures
        r == worth_trying(came),
{
    match came {
        Some(Encryption::Enabled) => false,
        Some(Encryption::Dropped { .. }) => false,
        Some(Encryption::Refused { status, .. }) => status != 0xFF,
        Some(Encryption::CommandRejected(_)) => true,
        None => true,
    }
}

/// Whether another key can be tried.
pub open spec fn another_key(came: Option<Encryption>) -> bool {
    match came {
        Some(Encryption::Refused { .. }) => true,
        None => true,
        _ => false,
    }
}

/// Whether another key can be tried: not on a link that is encrypted or gone, and not
/// where the dongle does not take the command at all.
pub fn try_next_key(came: Option<Encryption>) -> (r: bool)
    ensures
        r == another_key(came),
{
    match came {
        Some(Encryption::Refused { .. }) => true,
        None => true,
        _ => false,
    }
}

/// Whether a 32-bit pattern is that of a positive, finite single-precision number.
pub open spec fn is_positive_finite(bits: u32) -> bool {
    0 < bits < 0x7F80_0000
}

/// The scale factors that a controller states of its sensors, as the bit patterns of
/// single-precision numbers.
#[derive(Debug, Clone, Copy, PartialEq, Eq, Structural)]
pub struct SensorScales {
    /// Metres per second squared for each step of the accelerometer.
    pub accel_per_lsb: u32,
    /// Radians per second for each step of the gyroscope.
    pub gyro_rad_per_lsb: u32,
    pub accel_range: Option<u32>,
    pub gyro_range: Option<u32>,
}

/// The 32-bit pattern at `at`, where the data reaches that far.
pub open spec fn pattern_at(data: Seq<u8>, at: int) -> Option<u32> {
    if at + 4 <= data.len() {
        Some(bytes::u32_at(data, at))
    } else {
        None
    }
}

/// The scale factors in the reply to the question for them. Nothing where a factor is
/// missing or makes no sense: a zero would divide to infinity.
pub open spec fn scales_of(data: Seq<u8>) -> Option<SensorScales> {
    match (pattern_at(data, 5), pattern_at(data, 9)) {
        (Some(a), Some(g)) => if is_positive_finite(a) && is_positive_finite(g) {
            Some(
                SensorScales {
                    accel_per_lsb: a,
                    gyro_rad_per_lsb: g,
                    accel_range: pattern_at(data, 13),
                    gyro_range: pattern_at(data, 17),
                },
            )
        } else {
            None
        },
        _ => None,
    }
}

/// Read the 32-bit pattern at `at`.
fn pattern(data: &[u8], at: usize) -> (r: Option<u32>)
    requires
        at <= 100,
    ensures
        r == pattern_at(data@, at as int),
{
    if at + 4 <= data.len() {
        let x: u32 = join32(data[at], data[at + 1], data[at + 2], data[at + 3]);
        assert(x == bytes::u32_at(data@, at as int));
        Some(x)
    } else {
        None
    }
}

/// Read the scale factors out of the reply to the question for them.
pub fn sensor_scales(data: &[u8]) -> (r: Option<SensorScales>)
    ensures
        r == scales_of(data@),
{
    let a: u32 = match pattern(data, 5) {
        Some(x) => x,
        None => {
            return None;
        },
    };
    let g: u32 = match pattern(data, 9) {
        Some(x) => x,
        None => {
            return None;
        },
    };
    if a == 0 || a >= 0x7F80_0000 || g == 0 || g >= 0x7F80_0000 {
        return None;
    }
    Some(
        SensorScales {
            accel_per_lsb: a,
            gyro_rad_per_lsb: g,
            accel_range: pattern(data, 13),
            gyro_range: pattern(data, 17),
        },
    )
}

/// Whether a stretch of flash was never written: all zeros, or all ones.
pub open spec fn is_erased(data: Seq<u8>) -> bool {
    (forall|i: int| 0 <= i < data.len() ==> #[trigger] data[i] == 0x00) || (forall|i: int|
        0 <= i < data.len() ==> #[trigger] data[i] == 0xFF)
}

/// Whether every byte is `b`.
fn all_are(data: &[u8], b: u8) -> (r: bool)
    ensures
        r == (forall|i: int| 0 <= i < data@.len() ==> #[trigger] data@[i] == b),
{
    let mut i: usize = 0;
    while i < data.len()
        invariant
            i <= data@.len(),
            forall|j: int| 0 <= j < i ==> #[trigger] data@[j] == b,
        decreases data@.len() - i,
    {
        if data[i] != b {
            assert(data@[i as int] != b);
            return false;
        }
        i += 1;
    }
    true
}

/// Whether a stretch of flash was never written.
pub fn erased(data: &[u8]) -> (r: bool)
    ensures
        r == is_erased(data@),
{
    all_are(data, 0x00) || all_are(data, 0xFF)
}

/// How an advertisement of Nintendo's stands on the wire: its company id, three bytes, the
/// vendor, the product, and more. Another company's is not read.
pub proof fn nintendo_ids_are_read(company: u16, between: Seq<u8>, vid: u16, pid: u16, more: Seq<u8>)
    requires
        between.len() == 3,
    ensures
        nintendo_ids_of(
            bytes::le16(company) + between + bytes::le16(vid) + bytes::le16(pid) + more,
        ) == if company == 0x0553 {
            Some((vid, pid))
        } else {
            None
        },
{
    let c = bytes::le16(company);
    let v = bytes::le16(vid);
    let p = bytes::le16(pid);
    let md = c + between + v + p + more;
    bytes::le16_round_trips(company);
    bytes::le16_round_trips(vid);
    bytes::le16_round_trips(pid);
    assert(md[0] == c[0] && md[1] == c[1]);
    assert(md[5] == v[0] && md[6] == v[1]);
    assert(md[7] == p[0] && md[8] == p[1]);
}

/// The host that a controller is bonded to stands back to front behind twelve bytes.
pub proof fn a_bonded_host_is_read(before: Seq<u8>, host: Seq<u8>, more: Seq<u8>)
    requires
        before.len() == 12,
        host.len() == 6,
    ensures
        bonded_host_of(
            before + seq![host[5], host[4], host[3], host[2], host[1], host[0]] + more,
        ) == Some(host),
{
    let wire = seq![host[5], host[4], host[3], host[2], host[1], host[0]];
    let md = before + wire + more;
    assert(md.subrange(12, 18) =~= wire);
    assert(bytes::reversed(wire) =~= host);
}

/// A controller is new exactly where it advertises as Nintendo's and nobody with its address
/// is known; and then it is known by the product that it names.
pub proof fn a_newcomer_is_nintendos_and_unknown(r: hci::AdvReportView, known: Seq<[u8; 6]>)
    ensures
        newcomer(r, known) is Some <==> {
            &&& hci::manufacturer_data_of(r.data) matches Some(md)
            &&& nintendo_ids_of(md) is Some
            &&& forall|i: int| 0 <= i < known.len() ==> (#[trigger] known[i])@ != r.address
        },
        newcomer(r, known) matches Some(pid) ==> (nintendo_ids_of(
            hci::manufacturer_data_of(r.data)->0,
        )->0).1 == pid,
{
}

/// Where a command says what: its number first, its subcommand fourth, how much data it has
/// sixth, and the data behind eight bytes; the others are always the same.
pub proof fn a_command_says_what_it_is(cmd: u8, sub: u8, data: Seq<u8>)
    requires
        data.len() < 256,
    ensures
        ({
            let b = command_body(cmd, sub, data);
            &&& b.len() == 8 + data.len()
            &&& b[0] == cmd && b[1] == 0x91 && b[2] == 0x01 && b[3] == sub
            &&& b[4] == 0 && b[5] == data.len() && b[6] == 0 && b[7] == 0
            &&& b.skip(8) == data
        }),
{
    assert(command_body(cmd, sub, data).skip(8) =~= data);
}

/// What stands before a command on the channel of one side is seventeen zeros, and nothing
/// stands before it elsewhere.
pub proof fn only_zeros_stand_before_a_command(i: int)
    ensures
        prefix_of(true).len() == 17,
        prefix_of(false).len() == 0,
        0 <= i < 17 ==> prefix_of(true)[i] == 0,
{
}

/// A reply names the command that it is for, its status behind it, and its data behind eight
/// bytes; a reply to another command is none.
pub proof fn a_reply_is_read(cmd: u8, asked: u8, status: u8, between: Seq<u8>, data: Seq<u8>)
    requires
        between.len() == 6,
    ensures
        reply_in(seq![cmd, status] + between + data, asked) == if cmd == asked {
            Some((status, data))
        } else {
            None
        },
{
    let v = seq![cmd, status] + between + data;
    assert(v[0] == cmd && v[1] == status);
    assert(v.skip(8) =~= data);
}

/// A reply counts only where it is notified on the channel of replies, of one of the links
/// that were asked.
pub proof fn a_reply_comes_on_its_channel(
    conn: u16,
    cid: u16,
    handle: u16,
    value: Seq<u8>,
    conns: Seq<u16>,
    cmd: u8,
)
    ensures
        reply_of(
            acl::AclPacketView {
                conn_handle: conn,
                cid,
                payload: seq![0x1Bu8] + bytes::le16(handle) + value,
            },
            conns,
            cmd,
        ) == if cid == 4 && handle == 0x001A && conns.contains(conn) {
            reply_in(value, cmd)
        } else {
            None
        },
{
    let payload = seq![0x1Bu8] + bytes::le16(handle) + value;
    bytes::le16_round_trips(handle);
    assert(payload[0] == 0x1B);
    assert(payload[1] == bytes::le16(handle)[0] && payload[2] == bytes::le16(handle)[1]);
    assert(payload.skip(3) =~= value);
}

/// A response is read on either channel: its command, its status and how much data it says
/// that it has, and as much of that as arrived and no more. One too short for a header is
/// kept whole.
pub proof fn a_response_is_read(
    conn: u16,
    per_side: bool,
    cmd: u8,
    status: u8,
    a: Seq<u8>,
    says: u8,
    b: Seq<u8>,
    data: Seq<u8>,
    short: Seq<u8>,
)
    requires
        a.len() == 3,
        b.len() == 2,
        short.len() < 8,
    ensures
        ({
            let handle: u16 = if per_side {
                0x001E
            } else {
                0x001A
            };
            let whole = acl::AclPacketView {
                conn_handle: conn,
                cid: 4,
                payload: seq![0x1Bu8] + bytes::le16(handle) + (seq![cmd, status] + a + seq![says]
                    + b + data),
            };
            let cut = acl::AclPacketView {
                conn_handle: conn,
                cid: 4,
                payload: seq![0x1Bu8] + bytes::le16(handle) + short,
            };
            &&& response_of(whole, conn) == Some(
                ResponseView {
                    per_side,
                    header: Some((cmd, status, says)),
                    data: if says < data.len() {
                        data.take(says as int)
                    } else {
                        data
                    },
                },
            )
            &&& response_of(cut, conn) == Some(
                ResponseView { per_side, header: None, data: short },
            )
            &&& forall|other: u16| other != conn ==> response_of(whole, other) is None
        }),
{
    let handle: u16 = if per_side {
        0x001E
    } else {
        0x001A
    };
    let h = bytes::le16(handle);
    bytes::le16_round_trips(handle);
    let v = seq![cmd, status] + a + seq![says] + b + data;
    let p = seq![0x1Bu8] + h + v;
    assert(p[0] == 0x1B && p[1] == h[0] && p[2] == h[1]);
    assert(p.skip(3) =~= v);
    assert(v[0] == cmd && v[1] == status && v[5] == says);
    assert(v.subrange(8, v.len() as int) =~= data);
    if says < data.len() {
        assert(v.subrange(8, 8 + says) =~= data.take(says as int));
    }
    let q = seq![0x1Bu8] + h + short;
    assert(q[0] == 0x1B && q[1] == h[0] && q[2] == h[1]);
    assert(q.skip(3) =~= short);
}

/// Where a step stands in a sequence, where it stands there once.
pub open spec fn stands_once(
    steps: Seq<(u8, u8, Seq<u8>)>,
    at: int,
    cmd: u8,
    sub: u8,
) -> bool {
    &&& 0 <= at < steps.len()
    &&& steps[at].0 == cmd && steps[at].1 == sub
    &&& forall|i: int|
        0 <= i < steps.len() && i != at ==> !((#[trigger] steps[i]).0 == cmd && steps[i].1 == sub)
}

/// Whether a sequence configures features and then enables the same: each step about features
/// carries the mask and three zeros, and there is one of either, in that order.
pub open spec fn switches_features_on(steps: Seq<(u8, u8, Seq<u8>)>, mask: u8) -> bool {
    &&& exists|i: int, j: int|
        #![trigger stands_once(steps, i, 0x0c, 0x02), stands_once(steps, j, 0x0c, 0x04)]
        i < j && stands_once(steps, i, 0x0c, 0x02) && stands_once(steps, j, 0x0c, 0x04)
    &&& forall|i: int|
        0 <= i < steps.len() && (#[trigger] steps[i]).0 == 0x0c ==> steps[i].2 == seq![
            mask,
            0u8,
            0u8,
            0u8,
        ]
}

/// Waking a controller up switches on the features that were asked for, whichever they are;
/// so does keeping it awake, and restoring a stream switches on the known ones.
pub proof fn the_features_that_were_asked_for_are_enabled(mask: u8)
    ensures
        switches_features_on(init_sequence(mask), mask),
        switches_features_on(waking_sequence(mask), mask),
        switches_features_on(restoring_sequence(), 0x37),
{
    assert(stands_once(init_sequence(mask), 4, 0x0c, 0x02));
    assert(stands_once(init_sequence(mask), 7, 0x0c, 0x04));
    assert(stands_once(waking_sequence(mask), 4, 0x0c, 0x02));
    assert(stands_once(waking_sequence(mask), 5, 0x0c, 0x04));
    assert(stands_once(restoring_sequence(), 3, 0x0c, 0x02));
    assert(stands_once(restoring_sequence(), 4, 0x0c, 0x04));
}

/// Every sequence makes the same handshake before it touches the features, and a player LED
/// is lit, the first one, where one is.
pub proof fn every_sequence_shakes_hands_first(mask: u8)
    ensures
        stands_once(init_sequence(mask), 1, 0x07, 0x01),
        stands_once(init_sequence(mask), 2, 0x16, 0x01),
        stands_once(init_sequence(mask), 12, 0x09, 0x07),
        init_sequence(mask).len() == 13,
        stands_once(waking_sequence(mask), 0, 0x07, 0x01),
        stands_once(waking_sequence(mask), 2, 0x16, 0x01),
        stands_once(waking_sequence(mask), 3, 0x09, 0x07),
        stands_once(restoring_sequence(), 0, 0x07, 0x01),
        stands_once(restoring_sequence(), 2, 0x16, 0x01),
        init_sequence(mask)[12].2[0] == 1,
        waking_sequence(mask)[3].2[0] == 1,
{
}

/// Waking a controller up for one mask or another differs in nothing but the mask.
pub proof fn only_the_mask_differs(a: u8, b: u8, i: int)
    requires
        0 <= i < init_sequence(a).len(),
    ensures
        init_sequence(a).len() == init_sequence(b).len(),
        init_sequence(a)[i].0 == init_sequence(b)[i].0,
        init_sequence(a)[i].1 == init_sequence(b)[i].1,
        init_sequence(a)[i].0 != 0x0c ==> init_sequence(a)[i] == init_sequence(b)[i],
{
}

/// The data of a LED step is the pattern and seven zeros.
pub proof fn a_pattern_comes_first(pattern: u8, i: int)
    ensures
        led_data(pattern).len() == 8,
        led_data(pattern)[0] == pattern,
        1 <= i < 8 ==> led_data(pattern)[i] == 0,
{
}

/// Combining is done byte by byte, does not care which key comes first, and undoes itself.
pub proof fn combining_undoes_itself(a: Seq<u8>, b: Seq<u8>)
    requires
        a.len() == b.len(),
    ensures
        combined(a, b) == combined(b, a),
        combined(a, combined(a, b)) == b,
        combined(a, b).len() == a.len(),
{
    assert forall|i: int| 0 <= i < a.len() implies a[i] ^ b[i] == b[i] ^ a[i] && a[i] ^ (a[i] ^ b[i])
        == b[i] by {
        let x = a[i];
        let y = b[i];
        assert(x ^ y == y ^ x && x ^ (x ^ y) == y) by (bit_vector);
    }
    assert(combined(a, b) =~= combined(b, a));
    assert(combined(a, combined(a, b)) =~= b);
}

/// A key comes only of a whole reply, and depends on nothing but the sixteen bytes behind its
/// first; two devices with different keys come to different ones.
pub proof fn a_key_comes_of_a_whole_reply(frame: u8, device: Seq<u8>, more: Seq<u8>, other: Seq<u8>)
    requires
        device.len() == 16,
        other.len() == 16,
    ensures
        derived_key(seq![frame] + device + more) matches Some(k) && k.len() == 16 && combined(
            HOST_KEY@,
            k,
        ) == device,
        derived_key((seq![frame] + device).take(16)) is None,
        device != other ==> derived_key(seq![frame] + device) != derived_key(seq![frame] + other),
{
    let r = seq![frame] + device + more;
    the_device_key_can_be_recovered(r);
    assert(r.subrange(1, 17) =~= device);
    let s = seq![frame] + device;
    let o = seq![frame] + other;
    the_device_key_can_be_recovered(s);
    the_device_key_can_be_recovered(o);
    assert(s.subrange(1, 17) =~= device);
    assert(o.subrange(1, 17) =~= other);
}

/// The keys that are worth trying: the derived one first, where there is one, the same back
/// to front, and the host's own always, and last.
pub proof fn the_host_key_is_tried_last(reply: Seq<u8>)
    ensures
        ({
            let all = candidate_keys_of(reply);
            &&& all.last() == HOST_KEY@
            &&& derived_key(reply) is None ==> all.len() == 1
            &&& derived_key(reply) matches Some(k) ==> all.len() == 3 && all[0] == k && forall|
                i: int,
            |
                0 <= i < 16 ==> all[1][15 - i] == #[trigger] k[i]
        }),
{
}

/// What came of asking for encryption is told only by the change itself, by a refusal of that
/// very command, or by the end of a link; and it is on only where the change says so without
/// an error.
pub proof fn encryption_is_told_by_three_events(e: hci::EventView)
    ensures
        encryption_of(e) == Some(Encryption::Enabled) <==> (e matches
            hci::EventView::EncryptionChange { status, enabled, .. } && status == 0 && enabled
            == 1),
        encryption_of(e) matches Some(Encryption::CommandRejected(code)) ==> (e matches
            hci::EventView::CommandStatus { status, opcode } && opcode.0 == 0x2019 && status == code
            && code != 0),
        encryption_of(e) matches Some(Encryption::Dropped { reason: why }) ==> (e matches
            hci::EventView::DisconnectionComplete { reason, .. } && reason == why),
        encryption_of(e) is None <==> match e {
            hci::EventView::EncryptionChange { .. } => false,
            hci::EventView::DisconnectionComplete { .. } => false,
            hci::EventView::CommandStatus { status, opcode } => opcode.0 != 0x2019 || status == 0,
            _ => true,
        },
{
}

/// A pattern is that of a positive, finite number exactly where its sign is clear, it is not
/// zero, and its exponent is not the one of infinities and of what is no number.
pub proof fn positive_and_finite_by_its_fields(sign: u32, exponent: u32, fraction: u32)
    requires
        sign < 2,
        exponent < 0x100,
        fraction < 0x80_0000,
    ensures
        is_positive_finite((0x8000_0000 * sign + 0x80_0000 * exponent + fraction) as u32) <==> sign
            == 0 && exponent != 0xFF && (exponent != 0 || fraction != 0),
{
}

/// Where the scale factors stand: behind five bytes, the accelerometer's, the gyroscope's,
/// and the range of each.
pub proof fn scales_are_read(
    head: Seq<u8>,
    accel: u32,
    gyro: u32,
    accel_range: u32,
    gyro_range: u32,
    more: Seq<u8>,
)
    requires
        head.len() == 5,
    ensures
        scales_of(
            head + bytes::le32(accel) + bytes::le32(gyro) + bytes::le32(accel_range) + bytes::le32(
                gyro_range,
            ) + more,
        ) == if is_positive_finite(accel) && is_positive_finite(gyro) {
            Some(
                SensorScales {
                    accel_per_lsb: accel,
                    gyro_rad_per_lsb: gyro,
                    accel_range: Some(accel_range),
                    gyro_range: Some(gyro_range),
                },
            )
        } else {
            None
        },
        scales_of(head + bytes::le32(accel) + bytes::le32(gyro).take(3)) is None,
        is_positive_finite(accel) && is_positive_finite(gyro) ==> scales_of(
            head + bytes::le32(accel) + bytes::le32(gyro),
        ) == Some(
            SensorScales {
                accel_per_lsb: accel,
                gyro_rad_per_lsb: gyro,
                accel_range: None,
                gyro_range: None,
            },
        ),
{
    let a = bytes::le32(accel);
    let g = bytes::le32(gyro);
    let x = bytes::le32(accel_range);
    let y = bytes::le32(gyro_range);
    bytes::le32_round_trips(accel);
    bytes::le32_round_trips(gyro);
    bytes::le32_round_trips(accel_range);
    bytes::le32_round_trips(gyro_range);
    let d = head + a + g + x + y + more;
    assert(d[5] == a[0] && d[6] == a[1] && d[7] == a[2] && d[8] == a[3]);
    assert(d[9] == g[0] && d[10] == g[1] && d[11] == g[2] && d[12] == g[3]);
    assert(d[13] == x[0] && d[14] == x[1] && d[15] == x[2] && d[16] == x[3]);
    assert(d[17] == y[0] && d[18] == y[1] && d[19] == y[2] && d[20] == y[3]);
    let s = head + a + g;
    assert(s[5] == a[0] && s[6] == a[1] && s[7] == a[2] && s[8] == a[3]);
    assert(s[9] == g[0] && s[10] == g[1] && s[11] == g[2] && s[12] == g[3]);
}

/// Whether a sequence has a step with this data, and every such step has it.
pub open spec fn carries(
    steps: Seq<(u8, u8, Seq<u8>)>,
    cmd: u8,
    sub: u8,
    data: Seq<u8>,
) -> bool {
    &&& exists|at: int| #[trigger] stands_once(steps, at, cmd, sub)
    &&& forall|i: int|
        0 <= i < steps.len() && (#[trigger] steps[i]).0 == cmd && steps[i].1 == sub ==> steps[i].2
            == data
}

/// What the steps that are not about features carry, whatever the mask: the format of the
/// reports is the ninth one, the output is addressed to everybody, and whatever only asks
/// carries nothing.
pub proof fn the_other_steps_carry_the_same(mask: u8)
    ensures
        carries(init_sequence(mask), 0x03, 0x0a, seq![0x09u8, 0, 0, 0]),
        carries(
            init_sequence(mask),
            0x03,
            0x0d,
            seq![0x01u8, 0x00] + Seq::new(6, |i: int| 0xFFu8),
        ),
        carries(init_sequence(mask), 0x15, 0x03, seq![0x00u8]),
        carries(init_sequence(mask), 0x01, 0x01, seq![0u8, 0, 0, 0]),
        carries(
            init_sequence(mask),
            0x0a,
            0x08,
            seq![0x01u8] + Seq::new(8, |i: int| 0xFFu8) + seq![0x35u8, 0x00, 0x46] + Seq::new(
                8,
                |i: int| 0x00u8,
            ),
        ),
        carries(init_sequence(mask), 0x07, 0x01, seq![]),
        carries(init_sequence(mask), 0x16, 0x01, seq![]),
        carries(init_sequence(mask), 0x11, 0x03, seq![]),
        carries(init_sequence(mask), 0x10, 0x01, seq![]),
        carries(init_sequence(mask), 0x01, 0x0c, seq![]),
        carries(waking_sequence(mask), 0x07, 0x01, seq![]),
        carries(waking_sequence(mask), 0x10, 0x01, seq![]),
        carries(waking_sequence(mask), 0x16, 0x01, seq![]),
        carries(restoring_sequence(), 0x07, 0x01, seq![]),
        carries(restoring_sequence(), 0x10, 0x01, seq![]),
        carries(restoring_sequence(), 0x16, 0x01, seq![]),
{
    let s = init_sequence(mask);
    assert(stands_once(s, 0, 0x03, 0x0d));
    assert(stands_once(s, 1, 0x07, 0x01));
    assert(stands_once(s, 2, 0x16, 0x01));
    assert(stands_once(s, 3, 0x15, 0x03));
    assert(stands_once(s, 5, 0x11, 0x03));
    assert(stands_once(s, 6, 0x0a, 0x08));
    assert(stands_once(s, 8, 0x03, 0x0a));
    assert(stands_once(s, 9, 0x10, 0x01));
    assert(stands_once(s, 10, 0x01, 0x0c));
    assert(stands_once(s, 11, 0x01, 0x01));
    assert(s[0].2 =~= seq![0x01u8, 0x00] + Seq::new(6, |i: int| 0xFFu8));
    assert(s[6].2 =~= seq![0x01u8] + Seq::new(8, |i: int| 0xFFu8) + seq![0x35u8, 0x00, 0x46]
        + Seq::new(8, |i: int| 0x00u8));
    let w = waking_sequence(mask);
    assert(stands_once(w, 0, 0x07, 0x01));
    assert(stands_once(w, 1, 0x10, 0x01));
    assert(stands_once(w, 2, 0x16, 0x01));
    let r = restoring_sequence();
    assert(stands_once(r, 0, 0x07, 0x01));
    assert(stands_once(r, 1, 0x10, 0x01));
    assert(stands_once(r, 2, 0x16, 0x01));
}

/// Flash is asked for by how much of it and from where, low byte first.
pub proof fn flash_is_asked_for_by_size_and_place(addr: u32, size: u8)
    ensures
        ({
            let p = flash_data(addr, size);
            &&& p.len() == 8
            &&& p[0] == size && p[1] == 0x7E && p[2] == 0 && p[3] == 0
            &&& bytes::u32_at(p, 4) == addr
        }),
{
    let p = flash_data(addr, size);
    let a = bytes::le32(addr);
    bytes::le32_round_trips(addr);
    assert(p[4] == a[0] && p[5] == a[1] && p[6] == a[2] && p[7] == a[3]);
}

/// A host is told by its address back to front, twice, and the key of a link by the address
/// and the key, both back to front.
pub proof fn hosts_and_keys_go_out_back_to_front(host: Seq<u8>, key: Seq<u8>, i: int)
    requires
        host.len() == 6,
        key.len() == 16,
    ensures
        set_host_data(host).len() == 14,
        set_host_data(host)[0] == 0 && set_host_data(host)[1] == 2,
        0 <= i < 6 ==> set_host_data(host)[2 + i] == host[5 - i],
        0 <= i < 6 ==> set_host_data(host)[8 + i] == host[5 - i],
        register_key_data(host, key).len() == 22,
        0 <= i < 6 ==> register_key_data(host, key)[i] == host[5 - i],
        0 <= i < 16 ==> register_key_data(host, key)[6 + i] == key[15 - i],
{
    let h = bytes::reversed(host);
    let k = bytes::reversed(key);
    assert(0 <= i < 6 ==> set_host_data(host)[2 + i] == h[i] && set_host_data(host)[8 + i] == h[i]);
    assert(0 <= i < 6 ==> register_key_data(host, key)[i] == h[i]);
    assert(0 <= i < 16 ==> register_key_data(host, key)[6 + i] == k[i]);
}

/// The keys that are offered are framed alike: a zero, and sixteen bytes; so what answers the
/// one is read like the other.
pub proof fn offered_keys_are_framed_alike()
    ensures
        host_key_data().len() == SECOND_KEY@.len(),
        host_key_data()[0] == 0 && SECOND_KEY@[0] == 0,
        host_key_data().skip(1) == HOST_KEY@,
        derived_key(host_key_data()) == Some(Seq::new(16, |i: int| 0u8)),
{
    assert(host_key_data().skip(1) =~= HOST_KEY@);
    let r = host_key_data();
    assert(r.subrange(1, 17) =~= HOST_KEY@);
    assert forall|i: int| 0 <= i < 16 implies #[trigger] combined(HOST_KEY@, HOST_KEY@)[i] == 0 by {
        let x = HOST_KEY@[i];
        assert(x ^ x == 0) by (bit_vector);
    }
    assert(combined(HOST_KEY@, HOST_KEY@) =~= Seq::new(16, |i: int| 0u8));
}

/// A product is the right half or the left one, and only one product is the right.
pub proof fn one_product_is_the_right_half(pid: u16)
    ensures
        half_of(pid) == Side::Right <==> pid == 0x2066,
        half_of(pid) == Side::Left <==> pid != 0x2066,
{
}

/// Commands carry the prefix exactly where they go to the channel that rumble shares, and that
/// is the one that executes them.
pub proof fn the_shared_channel_wants_the_prefix(per_side: bool)
    ensures
        channel_of(per_side).1 == per_side,
        channel_of(per_side).0 == 0x0016 <==> per_side,
        channel_of(per_side).0 == 0x0014 <==> !per_side,
{
}

/// No key is tried on a link that is encrypted or gone. While surveying, only a refusal that
/// counts as gone stops it further; otherwise a dongle that does not take the command does,
/// and no refusal.
pub proof fn no_key_is_tried_in_vain(came: Option<Encryption>, status: u8, enabled: u8, code: u8)
    ensures
        came matches Some(Encryption::Enabled) ==> !worth_trying(came) && !another_key(came),
        came matches Some(Encryption::Dropped { .. }) ==> !worth_trying(came) && !another_key(came),
        worth_trying(None) && another_key(None),
        worth_trying(Some(Encryption::Refused { status, enabled })) <==> status != 0xFF,
        another_key(Some(Encryption::Refused { status, enabled })),
        worth_trying(Some(Encryption::CommandRejected(code))),
        !another_key(Some(Encryption::CommandRejected(code))),
{
}

/// Flash was never written exactly where all of it is zeros or all of it is ones: one byte
/// that is neither, or two that differ, say otherwise.
pub proof fn written_flash_shows(data: Seq<u8>, i: int, j: int, b: u8)
    requires
        0 <= i < data.len(),
        0 <= j < data.len(),
    ensures
        data[i] != data[j] ==> !is_erased(data),
        data[i] != 0 && data[i] != 0xFF ==> !is_erased(data),
        (forall|k: int| 0 <= k < data.len() ==> #[trigger] data[k] == b) && (b == 0 || b == 0xFF)
            ==> is_erased(data),
{
}

/// The message that asks for the layout with both sensors is written as it is: a one, eight
/// zeros, and the layout.
pub proof fn the_layout_is_asked_for(i: int)
    ensures
        input_mode_body().len() == 11,
        input_mode_body()[0] == 1,
        1 <= i < 9 ==> input_mode_body()[i] == 0,
        input_mode_body()[9] == 0x03,
        input_mode_body()[10] == 0x30,
{
}

} // verus!
