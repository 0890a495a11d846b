//! ACL data, L2CAP framing and the small slice of ATT that the stack needs.
//!
//! Layering, outermost first:
//!
//! ```text
//! HCI ACL : [handle:12 | boundary:2 | broadcast:2][total length u16][payload]
//! L2CAP   : [length u16][channel u16][payload]
//! ATT     : [opcode u8][parameters]
//! ```
use vstd::prelude::*;
use crate::bytes;
use crate::bytes::{copy_range, join16, len16, push16, push_all};
use crate::text;
use crate::text::{push_hex2, push_hex4, push_text};

verus! {

/// L2CAP channel id for the Attribute Protocol.
pub const CID_ATT: u16 = 0x0004;

/// Packet Boundary flag for the first fragment of an L2CAP message on an LE link.
///
/// The other "first" flag exists for BR/EDR; a controller that sees it on an LE link
/// accepts the write and never puts the packet on air.
pub const PB_FIRST: u16 = 0;

/// Packet Boundary flag for a continuation of an L2CAP message already begun.
///
/// A continuing fragment carries no L2CAP header. Decoding one as though it started a
/// fresh packet assembles a well-formed-looking message from the middle of another.
pub const PB_CONTINUING: u16 = 1;

/// First packet of an L2CAP message on a BR/EDR link: first, automatically flushable.
///
/// A report that cannot be flushed is retransmitted while the air is busy and stalls
/// the channel behind it.
pub const PB_FIRST_FLUSHABLE: u16 = 2;

pub const ATT_WRITE_REQUEST: u8 = 0x12;

pub const ATT_WRITE_RESPONSE: u8 = 0x13;

pub const ATT_WRITE_COMMAND: u8 = 0x52;

pub const ATT_HANDLE_VALUE_NOTIFICATION: u8 = 0x1B;

pub const ATT_ERROR_RESPONSE: u8 = 0x01;

pub const ATT_EXCHANGE_MTU_REQUEST: u8 = 0x02;

pub const ATT_EXCHANGE_MTU_RESPONSE: u8 = 0x03;

pub const ATT_FIND_INFORMATION_REQUEST: u8 = 0x04;

pub const ATT_FIND_INFORMATION_RESPONSE: u8 = 0x05;

pub const ATT_READ_BY_TYPE_REQUEST: u8 = 0x08;

pub const ATT_READ_BY_TYPE_RESPONSE: u8 = 0x09;

pub const ATT_READ_REQUEST: u8 = 0x0A;

pub const ATT_READ_RESPONSE: u8 = 0x0B;

/// ATT error code meaning "no more attributes in the requested range": the normal way
/// that a walk of the attribute table ends.
pub const ATT_ERR_ATTRIBUTE_NOT_FOUND: u8 = 0x0A;

/// Attribute type of a characteristic declaration.
pub const GATT_CHARACTERISTIC: u16 = 0x2803;

/// Attribute type of a Client Characteristic Configuration descriptor.
pub const GATT_CCCD: u16 = 0x2902;

/// Characteristic property bits, from the declaration value.
pub const PROP_READ: u8 = 0x02;

/// Write without response: the attribute accepts [`ATT_WRITE_COMMAND`] only, and
/// answers an acknowledged write with a refusal.
pub const PROP_WRITE_NO_RESPONSE: u8 = 0x04;

/// Write with response: the attribute accepts [`ATT_WRITE_REQUEST`].
pub const PROP_WRITE: u8 = 0x08;

pub const PROP_NOTIFY: u8 = 0x10;

pub const PROP_INDICATE: u8 = 0x20;

/// Client Characteristic Configuration value that enables notifications.
pub const CCCD_NOTIFY: [u8; 2] = [0x01, 0x00];

/// The header of an ACL packet: twelve bits of handle under the boundary flag.
pub open spec fn acl_header(conn_handle: u16, pb: u16) -> u16 {
    (conn_handle % 0x1000 + 0x1000 * (pb % 16)) as u16
}

/// An ACL packet that carries `payload` on the channel `cid`.
pub open spec fn acl_frame(conn_handle: u16, cid: u16, payload: Seq<u8>, pb: u16) -> Seq<u8> {
    bytes::le16(acl_header(conn_handle, pb)) + bytes::le16(bytes::low16(payload.len() + 4))
        + bytes::le16(bytes::low16(payload.len())) + bytes::le16(cid) + payload
}

/// Wrap an ATT message in L2CAP and ACL framing, ready for the bulk endpoint.
pub fn encode_acl(conn_handle: u16, cid: u16, payload: &[u8]) -> (out: Vec<u8>)
    ensures
        out@ == acl_frame(conn_handle, cid, payload@, PB_FIRST),
{
    encode_acl_pb(conn_handle, cid, payload, PB_FIRST)
}

/// [`encode_acl`] with the packet-boundary flag chosen explicitly.
pub fn encode_acl_pb(conn_handle: u16, cid: u16, payload: &[u8], pb: u16) -> (out: Vec<u8>)
    ensures
        out@ == acl_frame(conn_handle, cid, payload@, pb),
{
    let header: u16 = conn_handle % 0x1000 + 0x1000 * (pb % 16);
    let len: u16 = len16(payload.len());
    let total: u16 = len.wrapping_add(4);
    assert(total == bytes::low16(payload@.len() + 4)) by {
        let n = payload@.len() as int;
        assert(n % 0x1_0000 + 0x1_0000 * (n / 0x1_0000) == n);
        assert((n + 4) % 0x1_0000 == (n % 0x1_0000 + 4) % 0x1_0000);
    }
    let mut out: Vec<u8> = Vec::new();
    push16(&mut out, header);
    assert(out@ =~= bytes::le16(acl_header(conn_handle, pb)));
    push16(&mut out, total);
    push16(&mut out, len);
    push16(&mut out, cid);
    push_all(&mut out, payload);
    out
}

/// One decoded inbound ACL packet.
#[derive(Debug, PartialEq, Eq)]
pub struct AclPacket {
    pub conn_handle: u16,
    pub cid: u16,
    pub payload: Vec<u8>,
}

/// An [`AclPacket`] with its payload as a sequence.
#[verifier::ext_equal]
pub struct AclPacketView {
    pub conn_handle: u16,
    pub cid: u16,
    pub payload: Seq<u8>,
}

impl View for AclPacket {
    type V = AclPacketView;

    open spec fn view(&self) -> AclPacketView {
        AclPacketView { conn_handle: self.conn_handle, cid: self.cid, payload: self.payload@ }
    }
}

impl Clone for AclPacket {
    fn clone(&self) -> (p: AclPacket)
        ensures
            p@ == self@,
    {
        AclPacket {
            conn_handle: self.conn_handle,
            cid: self.cid,
            payload: vstd::slice::slice_to_vec(self.payload.as_slice()),
        }
    }
}

/// The packets of `all`, each by its view.
pub open spec fn packet_views(all: Seq<AclPacket>) -> Seq<AclPacketView> {
    all.map_values(|p: AclPacket| p@)
}

/// The packet in `buf`. Nothing where the headers or what they announce did not all
/// arrive, where the two lengths do not fit each other, or where this is the
/// continuation of an earlier packet.
pub open spec fn acl_of(buf: Seq<u8>) -> Option<AclPacketView> {
    let header = bytes::u16_at(buf, 0);
    let total = bytes::u16_at(buf, 2);
    let len = bytes::u16_at(buf, 4);
    if buf.len() < 8 || (header / 0x1000) % 4 == PB_CONTINUING || buf.len() < 4 + total || total
        < 4 + len {
        None
    } else {
        Some(
            AclPacketView {
                conn_handle: (header % 0x1000) as u16,
                cid: bytes::u16_at(buf, 6),
                payload: buf.subrange(8, 8 + len),
            },
        )
    }
}

/// Decode an inbound HCI ACL packet.
///
/// A truncated packet decoded optimistically yields a plausible-looking message built
/// from the wrong bytes, which is far worse than dropping it.
pub fn parse_acl(buf: &[u8]) -> (r: Option<AclPacket>)
    ensures
        match r {
            Some(p) => acl_of(buf@) == Some(p@),
            None => acl_of(buf@) is None,
        },
{
    if buf.len() < 8 {
        return None;
    }
    let header: u16 = join16(buf[0], buf[1]);
    if (header / 0x1000) % 4 == PB_CONTINUING {
        return None;
    }
    let total: usize = join16(buf[2], buf[3]) as usize;
    let len: usize = join16(buf[4], buf[5]) as usize;
    if buf.len() < 4 + total || total < 4 + len {
        return None;
    }
    let p = AclPacket {
        conn_handle: header % 0x1000,
        cid: join16(buf[6], buf[7]),
        payload: copy_range(buf, 8, 8 + len),
    };
    assert(Some(p@) == acl_of(buf@));
    Some(p)
}

/// How many bytes the packet at the start of `buf` takes, by its own length field.
pub open spec fn acl_size(buf: Seq<u8>) -> int {
    4 + bytes::u16_at(buf, 2)
}

/// Every packet that is whole in `buf`, in order: those that decode. What follows
/// the last whole packet is dropped.
pub open spec fn acl_packets(buf: Seq<u8>) -> Seq<AclPacketView>
    decreases buf.len(),
{
    if buf.len() < 4 || acl_size(buf) > buf.len() {
        seq![]
    } else {
        (match acl_of(buf.take(acl_size(buf))) {
            Some(p) => seq![p],
            None => seq![],
        }) + acl_packets(buf.skip(acl_size(buf)))
    }
}

/// Split one USB bulk transfer into every complete ACL packet it holds.
///
/// Keeping only the first packet of a transfer would be silent, produce no error, and
/// only show up under load.
pub fn split_acl(buf: &[u8]) -> (out: Vec<AclPacket>)
    ensures
        packet_views(out@) == acl_packets(buf@),
{
    let mut out: Vec<AclPacket> = Vec::new();
    let mut i: usize = 0;
    proof {
        assert(buf@.skip(0) =~= buf@);
        assert(packet_views(out@) + acl_packets(buf@) =~= acl_packets(buf@));
    }
    while buf.len() - i >= 4
        invariant
            i <= buf@.len(),
            packet_views(out@) + acl_packets(buf@.skip(i as int)) == acl_packets(buf@),
        ensures
            packet_views(out@) == acl_packets(buf@),
        decreases buf@.len() - i,
    {
        let ghost rest = buf@.skip(i as int);
        let want: usize = 4 + join16(buf[i + 2], buf[i + 3]) as usize;
        assert(want == acl_size(rest));
        if want > buf.len() - i {
            assert(acl_packets(rest) =~= seq![]);
            assert(packet_views(out@) =~= packet_views(out@) + acl_packets(rest));
            break;
        }
        let frame = vstd::slice::slice_subrange(buf, i, i + want);
        assert(frame@ =~= rest.take(want as int));
        assert(rest.skip(want as int) =~= buf@.skip(i + want));
        let ghost before = packet_views(out@);
        let p = parse_acl(frame);
        if let Some(p) = p {
            let ghost v = p@;
            out.push(p);
            assert(packet_views(out@) =~= before.push(v));
            assert(packet_views(out@) + acl_packets(buf@.skip(i + want)) =~= before + acl_packets(
                rest,
            ));
        } else {
            assert(packet_views(out@) + acl_packets(buf@.skip(i + want)) =~= before + acl_packets(
                rest,
            ));
        }
        i = i + want;
        if buf.len() - i < 4 {
            assert(acl_packets(buf@.skip(i as int)) =~= seq![]);
            assert(packet_views(out@) =~= packet_views(out@) + acl_packets(buf@.skip(i as int)));
        }
    }
    out
}

/// Whether the lengths of a packet with this payload fit their fields.
pub open spec fn fits_acl(payload: Seq<u8>) -> bool {
    payload.len() + 4 <= 0xFFFF
}

/// The header of a packet says which link it is for, and what its boundary flag is.
proof fn acl_header_fields(conn_handle: u16, pb: u16)
    ensures
        (acl_header(conn_handle, pb) / 0x1000) % 4 == pb % 4,
        acl_header(conn_handle, pb) % 0x1000 == conn_handle % 0x1000,
{
    let h = acl_header(conn_handle, pb) as int;
    assert(h == (conn_handle % 0x1000) as int + 0x1000 * ((pb % 16) as int));
    assert(h / 0x1000 == (pb % 16) as int);
}

/// The fields of an encoded packet are where a decoder looks for them.
#[verifier::spinoff_prover]
proof fn acl_frame_fields(conn_handle: u16, cid: u16, payload: Seq<u8>, pb: u16)
    requires
        fits_acl(payload),
    ensures
        acl_frame(conn_handle, cid, payload, pb).len() == 8 + payload.len(),
        bytes::u16_at(acl_frame(conn_handle, cid, payload, pb), 0) == acl_header(conn_handle, pb),
        bytes::u16_at(acl_frame(conn_handle, cid, payload, pb), 2) == payload.len() + 4,
        bytes::u16_at(acl_frame(conn_handle, cid, payload, pb), 4) == payload.len(),
        bytes::u16_at(acl_frame(conn_handle, cid, payload, pb), 6) == cid,
        acl_frame(conn_handle, cid, payload, pb).subrange(8, 8 + payload.len() as int) == payload,
{
    let f = acl_frame(conn_handle, cid, payload, pb);
    let a = bytes::le16(acl_header(conn_handle, pb));
    let b = bytes::le16(bytes::low16(payload.len() + 4));
    let c = bytes::le16(bytes::low16(payload.len()));
    let d = bytes::le16(cid);
    bytes::le16_round_trips(acl_header(conn_handle, pb));
    bytes::le16_round_trips(bytes::low16(payload.len() + 4));
    bytes::le16_round_trips(bytes::low16(payload.len()));
    bytes::le16_round_trips(cid);
    assert(f[0] == a[0] && f[1] == a[1]);
    assert(f[2] == b[0] && f[3] == b[1]);
    assert(f[4] == c[0] && f[5] == c[1]);
    assert(f[6] == d[0] && f[7] == d[1]);
    assert(f.subrange(8, 8 + payload.len() as int) =~= payload);
}

/// Decoding what was encoded gives back the handle, the channel and the payload.
pub proof fn acl_round_trips(conn_handle: u16, cid: u16, payload: Seq<u8>, pb: u16)
    requires
        fits_acl(payload),
        pb % 4 != PB_CONTINUING,
    ensures
        acl_of(acl_frame(conn_handle, cid, payload, pb)) == Some(
            AclPacketView { conn_handle: (conn_handle % 0x1000) as u16, cid, payload },
        ),
{
    acl_frame_fields(conn_handle, cid, payload, pb);
    acl_header_fields(conn_handle, pb);
}

/// A continuation fragment is never decoded.
pub proof fn a_continuation_is_refused(buf: Seq<u8>)
    requires
        (bytes::u16_at(buf, 0) / 0x1000) % 4 == PB_CONTINUING,
    ensures
        acl_of(buf) is None,
{
}

/// No proper prefix of an encoded packet decodes.
pub proof fn a_truncated_packet_is_refused(
    conn_handle: u16,
    cid: u16,
    payload: Seq<u8>,
    pb: u16,
    cut: int,
)
    requires
        fits_acl(payload),
        0 <= cut < acl_frame(conn_handle, cid, payload, pb).len(),
    ensures
        acl_of(acl_frame(conn_handle, cid, payload, pb).take(cut)) is None,
        acl_packets(acl_frame(conn_handle, cid, payload, pb).take(cut)) == Seq::<
            AclPacketView,
        >::empty(),
{
    let f = acl_frame(conn_handle, cid, payload, pb);
    acl_frame_fields(conn_handle, cid, payload, pb);
    if cut >= 4 {
        assert(f.take(cut)[2] == f[2]);
        assert(f.take(cut)[3] == f[3]);
    }
}

/// A whole packet at the start of a transfer is recovered, and what follows it is
/// split as if it stood alone.
pub proof fn a_whole_packet_is_recovered(
    conn_handle: u16,
    cid: u16,
    payload: Seq<u8>,
    pb: u16,
    rest: Seq<u8>,
)
    requires
        fits_acl(payload),
        pb % 4 != PB_CONTINUING,
    ensures
        acl_packets(acl_frame(conn_handle, cid, payload, pb) + rest) == seq![
            AclPacketView { conn_handle: (conn_handle % 0x1000) as u16, cid, payload },
        ] + acl_packets(rest),
{
    let f = acl_frame(conn_handle, cid, payload, pb);
    let buf = f + rest;
    acl_frame_fields(conn_handle, cid, payload, pb);
    acl_round_trips(conn_handle, cid, payload, pb);
    assert(buf[2] == f[2] && buf[3] == f[3]);
    assert(acl_size(buf) == f.len());
    assert(buf.take(f.len() as int) =~= f);
    assert(buf.skip(f.len() as int) =~= rest);
}

/// The packets `all`, encoded one after the other for an LE link.
pub open spec fn transfer_of(all: Seq<AclPacketView>) -> Seq<u8>
    decreases all.len(),
{
    if all.len() == 0 {
        seq![]
    } else {
        acl_frame(all[0].conn_handle, all[0].cid, all[0].payload, PB_FIRST) + transfer_of(
            all.skip(1),
        )
    }
}

/// Every packet of a transfer is recovered, in order, whatever tail follows them: a
/// truncated one costs only itself.
pub proof fn every_packet_is_recovered(all: Seq<AclPacketView>, tail: Seq<u8>)
    requires
        forall|i: int|
            0 <= i < all.len() ==> fits_acl((#[trigger] all[i]).payload) && all[i].conn_handle
                < 0x1000,
    ensures
        acl_packets(transfer_of(all) + tail) == all + acl_packets(tail),
    decreases all.len(),
{
    if all.len() == 0 {
        assert(transfer_of(all) + tail =~= tail);
        assert(all + acl_packets(tail) =~= acl_packets(tail));
    } else {
        let p = all[0];
        let f = acl_frame(p.conn_handle, p.cid, p.payload, PB_FIRST);
        let rest = transfer_of(all.skip(1)) + tail;
        assert forall|i: int| 0 <= i < all.skip(1).len() implies fits_acl(
            (#[trigger] all.skip(1)[i]).payload,
        ) && all.skip(1)[i].conn_handle < 0x1000 by {
            assert(all.skip(1)[i] == all[i + 1]);
        }
        every_packet_is_recovered(all.skip(1), tail);
        a_whole_packet_is_recovered(p.conn_handle, p.cid, p.payload, PB_FIRST, rest);
        bytes::concat_associates(f, transfer_of(all.skip(1)), tail);
        assert(seq![p] + (all.skip(1) + acl_packets(tail)) =~= all + acl_packets(tail));
    }
}

/// An ATT notification: a characteristic value pushed by the controller.
#[derive(Debug, Clone, PartialEq, Eq)]
pub struct Notification {
    pub handle: u16,
    pub value: Vec<u8>,
}

/// A [`Notification`] with its value as a sequence.
#[verifier::ext_equal]
pub struct NotificationView {
    pub handle: u16,
    pub value: Seq<u8>,
}

impl View for Notification {
    type V = NotificationView;

    open spec fn view(&self) -> NotificationView {
        NotificationView { handle: self.handle, value: self.value@ }
    }
}

/// The notification in `att`, where it is one.
pub open spec fn notification_of(att: Seq<u8>) -> Option<NotificationView> {
    if att.len() < 3 || att[0] != ATT_HANDLE_VALUE_NOTIFICATION {
        None
    } else {
        Some(NotificationView { handle: bytes::u16_at(att, 1), value: att.skip(3) })
    }
}

/// Decode a `Handle Value Notification`, or `None` if this message is not one.
pub fn parse_notification(att: &[u8]) -> (r: Option<Notification>)
    ensures
        match r {
            Some(n) => notification_of(att@) == Some(n@),
            None => notification_of(att@) is None,
        },
{
    if att.len() < 3 || att[0] != ATT_HANDLE_VALUE_NOTIFICATION {
        return None;
    }
    let value = copy_range(att, 3, att.len());
    assert(value@ =~= att@.skip(3));
    Some(Notification { handle: join16(att[1], att[2]), value })
}

/// An ATT message that writes `value` to `handle` by `opcode`.
pub open spec fn write_pdu(opcode: u8, handle: u16, value: Seq<u8>) -> Seq<u8> {
    seq![opcode] + bytes::le16(handle) + value
}

/// Build an ATT message of an opcode, a handle and a value.
fn build_write(opcode: u8, handle: u16, value: &[u8]) -> (out: Vec<u8>)
    ensures
        out@ == write_pdu(opcode, handle, value@),
{
    let mut out: Vec<u8> = Vec::new();
    out.push(opcode);
    assert(out@ =~= seq![opcode]);
    push16(&mut out, handle);
    push_all(&mut out, value);
    out
}

/// Build an ATT `Write Command`: no response, used for controller commands.
pub fn write_command(handle: u16, value: &[u8]) -> (out: Vec<u8>)
    ensures
        out@ == write_pdu(ATT_WRITE_COMMAND, handle, value@),
{
    build_write(ATT_WRITE_COMMAND, handle, value)
}

/// Build an ATT `Write Request`: acknowledged, so that a failed subscribe is visible
/// instead of silently producing no notifications.
pub fn write_request(handle: u16, value: &[u8]) -> (out: Vec<u8>)
    ensures
        out@ == write_pdu(ATT_WRITE_REQUEST, handle, value@),
{
    build_write(ATT_WRITE_REQUEST, handle, value)
}

/// An ATT message that asks for a message size.
pub open spec fn mtu_pdu(mtu: u16) -> Seq<u8> {
    seq![ATT_EXCHANGE_MTU_REQUEST] + bytes::le16(mtu)
}

/// Build an ATT `Exchange MTU Request`.
///
/// The default message size is 23 bytes, so a 63-byte report would otherwise arrive
/// in pieces.
pub fn exchange_mtu_request(mtu: u16) -> (out: Vec<u8>)
    ensures
        out@ == mtu_pdu(mtu),
{
    let mut out: Vec<u8> = Vec::new();
    out.push(ATT_EXCHANGE_MTU_REQUEST);
    assert(out@ =~= seq![ATT_EXCHANGE_MTU_REQUEST]);
    push16(&mut out, mtu);
    out
}

/// An attribute type, which ATT sends as either 16 or 128 bits.
#[derive(Debug, Clone, Copy, PartialEq, Eq)]
pub enum AttUuid {
    Short(u16),
    Long([u8; 16]),
}

/// An [`AttUuid`] with its bytes, in wire order, as a sequence.
#[verifier::ext_equal]
pub enum AttUuidView {
    Short(u16),
    Long(Seq<u8>),
}

impl View for AttUuid {
    type V = AttUuidView;

    open spec fn view(&self) -> AttUuidView {
        match self {
            AttUuid::Short(v) => AttUuidView::Short(*v),
            AttUuid::Long(b) => AttUuidView::Long(b@),
        }
    }
}

/// An attribute type as text: four digits behind `0x`, or the conventional
/// most-significant-first form with dashes. The wire carries the long form reversed.
pub open spec fn uuid_text(u: AttUuidView) -> Seq<char> {
    match u {
        AttUuidView::Short(v) => "0x"@ + text::hex4(v),
        AttUuidView::Long(b) => {
            let r = bytes::reversed(b);
            text::hex_of(r.subrange(0, 4)) + "-"@ + text::hex_of(r.subrange(4, 6)) + "-"@ + text::hex_of(
                r.subrange(6, 8),
            ) + "-"@ + text::hex_of(r.subrange(8, 10)) + "-"@ + text::hex_of(r.subrange(10, 16))
        },
    }
}

/// Append the digits of the bytes of `b` from index `hi` down to `lo`.
fn push_reversed(out: &mut String, b: &[u8; 16], hi: usize, lo: usize)
    requires
        lo <= hi + 1 <= 16,
    ensures
        final(out)@ == old(out)@ + text::hex_of(bytes::reversed(b@).subrange(15 - hi, 16 - lo)),
{
    let ghost r = bytes::reversed(b@);
    let mut i: usize = hi + 1;
    assert(r.subrange(15 - hi, 16 - i) =~= seq![]);
    assert(out@ =~= old(out)@ + text::hex_of(r.subrange(15 - hi, 16 - i)));
    while i > lo
        invariant
            lo <= i <= hi + 1 <= 16,
            r == bytes::reversed(b@),
            out@ == old(out)@ + text::hex_of(r.subrange(15 - hi, 16 - i)),
        decreases i,
    {
        i -= 1;
        push_hex2(out, b[i]);
        let ghost s = r.subrange(15 - hi, 16 - i);
        assert(s.drop_last() =~= r.subrange(15 - hi, 15 - i));
        assert(s.last() == b@[i as int]);
        assert(out@ =~= old(out)@ + text::hex_of(s));
    }
}

impl AttUuid {
    /// The type as text.
    pub fn to_text(&self) -> (out: String)
        ensures
            out@ == uuid_text(self@),
    {
        let mut out = String::new();
        match self {
            AttUuid::Short(v) => {
                push_text(&mut out, "0x");
                push_hex4(&mut out, *v);
            },
            AttUuid::Long(b) => {
                push_reversed(&mut out, b, 15, 12);
                push_text(&mut out, "-");
                push_reversed(&mut out, b, 11, 10);
                push_text(&mut out, "-");
                push_reversed(&mut out, b, 9, 8);
                push_text(&mut out, "-");
                push_reversed(&mut out, b, 7, 6);
                push_text(&mut out, "-");
                push_reversed(&mut out, b, 5, 0);
            },
        }
        assert(out@ =~= uuid_text(self@));
        out
    }

    /// Whether this is the 16-bit type `v`.
    pub fn is_short(&self, v: u16) -> (r: bool)
        ensures
            r == (self@ == AttUuidView::Short(v)),
    {
        match self {
            AttUuid::Short(w) => *w == v,
            AttUuid::Long(_) => false,
        }
    }
}

/// One entry from a `Find Information Response`: a handle and its type.
#[derive(Debug, Clone, Copy, PartialEq, Eq)]
pub struct AttrInfo {
    pub handle: u16,
    pub uuid: AttUuid,
}

/// An [`AttrInfo`] with its type by its view.
#[verifier::ext_equal]
pub struct AttrInfoView {
    pub handle: u16,
    pub uuid: AttUuidView,
}

impl View for AttrInfo {
    type V = AttrInfoView;

    open spec fn view(&self) -> AttrInfoView {
        AttrInfoView { handle: self.handle, uuid: self.uuid@ }
    }
}

/// The attributes of `all`, each by its view.
pub open spec fn attr_views(all: Seq<AttrInfo>) -> Seq<AttrInfoView> {
    all.map_values(|a: AttrInfo| a@)
}

/// An ATT message that asks for the attributes from one handle to another.
pub open spec fn find_pdu(start: u16, end: u16) -> Seq<u8> {
    seq![ATT_FIND_INFORMATION_REQUEST] + bytes::le16(start) + bytes::le16(end)
}

/// Build an ATT `Find Information Request`: walks handles and their types.
pub fn find_information_request(start: u16, end: u16) -> (out: Vec<u8>)
    ensures
        out@ == find_pdu(start, end),
{
    let mut out: Vec<u8> = Vec::new();
    out.push(ATT_FIND_INFORMATION_REQUEST);
    assert(out@ =~= seq![ATT_FIND_INFORMATION_REQUEST]);
    push16(&mut out, start);
    push16(&mut out, end);
    out
}

/// The type at offset `at` of `s`, of two bytes or of sixteen.
pub open spec fn uuid_at(s: Seq<u8>, at: int, long: bool) -> AttUuidView {
    if long {
        AttUuidView::Long(s.subrange(at, at + 16))
    } else {
        AttUuidView::Short(bytes::u16_at(s, at))
    }
}

/// Read the type at offset `at` of `s`.
fn read_uuid(s: &[u8], at: usize, long: bool) -> (u: AttUuid)
    requires
        at + (if long {
            16int
        } else {
            2
        }) <= s@.len(),
    ensures
        u@ == uuid_at(s@, at as int, long),
{
    if long {
        let b: [u8; 16] = [
            s[at],
            s[at + 1],
            s[at + 2],
            s[at + 3],
            s[at + 4],
            s[at + 5],
            s[at + 6],
            s[at + 7],
            s[at + 8],
            s[at + 9],
            s[at + 10],
            s[at + 11],
            s[at + 12],
            s[at + 13],
            s[at + 14],
            s[at + 15],
        ];
        assert(b@ =~= s@.subrange(at as int, at + 16));
        AttUuid::Long(b)
    } else {
        AttUuid::Short(join16(s[at], s[at + 1]))
    }
}

/// As many whole entries of a handle and a type as `s` starts with.
pub open spec fn attr_entries(s: Seq<u8>, long: bool) -> Seq<AttrInfoView>
    decreases s.len(),
{
    let entry = if long {
        18int
    } else {
        4
    };
    if s.len() < entry {
        seq![]
    } else {
        seq![AttrInfoView { handle: bytes::u16_at(s, 0), uuid: uuid_at(s, 2, long) }]
            + attr_entries(s.skip(entry), long)
    }
}

/// The attributes that a `Find Information Response` lists. Its second byte says
/// whether 16-bit or 128-bit types follow.
pub open spec fn find_information_of(att: Seq<u8>) -> Option<Seq<AttrInfoView>> {
    if att.len() < 2 || att[0] != ATT_FIND_INFORMATION_RESPONSE || !(att[1] == 1 || att[1] == 2) {
        None
    } else {
        Some(attr_entries(att.skip(2), att[1] == 2))
    }
}

/// Decode a `Find Information Response`, or `None` if this message is not one.
pub fn parse_find_information_response(att: &[u8]) -> (r: Option<Vec<AttrInfo>>)
    ensures
        match r {
            Some(v) => find_information_of(att@) == Some(attr_views(v@)),
            None => find_information_of(att@) is None,
        },
{
    if att.len() < 2 || att[0] != ATT_FIND_INFORMATION_RESPONSE {
        return None;
    }
    if att[1] != 1 && att[1] != 2 {
        return None;
    }
    let long: bool = att[1] == 2;
    let entry: usize = if long {
        18
    } else {
        4
    };
    let mut out: Vec<AttrInfo> = Vec::new();
    let mut i: usize = 2;
    assert(attr_views(out@) + attr_entries(att@.skip(2), long) =~= attr_entries(
        att@.skip(2),
        long,
    ));
    while att.len() - i >= entry
        invariant
            2 <= i <= att@.len(),
            entry == if long {
                18int
            } else {
                4
            },
            attr_views(out@) + attr_entries(att@.skip(i as int), long) == attr_entries(
                att@.skip(2),
                long,
            ),
        decreases att@.len() - i,
    {
        let ghost rest = att@.skip(i as int);
        let a = AttrInfo {
            handle: join16(att[i], att[i + 1]),
            uuid: read_uuid(att, i + 2, long),
        };
        assert(uuid_at(rest, 2, long) =~= uuid_at(att@, i + 2, long)) by {
            if long {
                assert(rest.subrange(2, 18) =~= att@.subrange(i + 2, i + 18));
            }
        }
        let ghost before = attr_views(out@);
        out.push(a);
        assert(attr_views(out@) =~= before.push(a@));
        assert(rest.skip(entry as int) =~= att@.skip(i + entry));
        assert(attr_views(out@) + attr_entries(att@.skip(i + entry), long) =~= before
            + attr_entries(rest, long));
        i = i + entry;
    }
    assert(attr_entries(att@.skip(i as int), long) =~= seq![]);
    assert(attr_views(out@) =~= attr_entries(att@.skip(2), long));
    Some(out)
}

/// An ATT message that asks for the values of one type from one handle to another.
pub open spec fn read_by_type_pdu(start: u16, end: u16, uuid: u16) -> Seq<u8> {
    seq![ATT_READ_BY_TYPE_REQUEST] + bytes::le16(start) + bytes::le16(end) + bytes::le16(uuid)
}

/// Build an ATT `Read By Type Request` for a 16-bit attribute type.
pub fn read_by_type_request(start: u16, end: u16, uuid: u16) -> (out: Vec<u8>)
    ensures
        out@ == read_by_type_pdu(start, end, uuid),
{
    let mut out: Vec<u8> = Vec::new();
    out.push(ATT_READ_BY_TYPE_REQUEST);
    assert(out@ =~= seq![ATT_READ_BY_TYPE_REQUEST]);
    push16(&mut out, start);
    push16(&mut out, end);
    push16(&mut out, uuid);
    out
}

/// As many whole entries of a handle and a value as `s` starts with, where each
/// takes `entry` bytes.
pub open spec fn value_entries(s: Seq<u8>, entry: nat) -> Seq<(u16, Seq<u8>)>
    decreases s.len(),
{
    if entry < 3 || s.len() < entry {
        seq![]
    } else {
        seq![(bytes::u16_at(s, 0), s.subrange(2, entry as int))] + value_entries(
            s.skip(entry as int),
            entry,
        )
    }
}

/// The handles and values that a `Read By Type Response` lists. Its second byte is
/// the size of an entry.
pub open spec fn read_by_type_of(att: Seq<u8>) -> Option<Seq<(u16, Seq<u8>)>> {
    if att.len() < 2 || att[0] != ATT_READ_BY_TYPE_RESPONSE || att[1] < 3 {
        None
    } else {
        Some(value_entries(att.skip(2), att[1] as nat))
    }
}

/// The entries of `all`, each value by its view.
pub open spec fn entry_views(all: Seq<(u16, Vec<u8>)>) -> Seq<(u16, Seq<u8>)> {
    all.map_values(|e: (u16, Vec<u8>)| (e.0, e.1@))
}

/// Decode a `Read By Type Response` into `(handle, value)` pairs.
pub fn parse_read_by_type_response(att: &[u8]) -> (r: Option<Vec<(u16, Vec<u8>)>>)
    ensures
        match r {
            Some(v) => read_by_type_of(att@) == Some(entry_views(v@)),
            None => read_by_type_of(att@) is None,
        },
{
    if att.len() < 2 || att[0] != ATT_READ_BY_TYPE_RESPONSE {
        return None;
    }
    let entry: usize = att[1] as usize;
    if entry < 3 {
        return None;
    }
    let mut out: Vec<(u16, Vec<u8>)> = Vec::new();
    let mut i: usize = 2;
    assert(entry_views(out@) + value_entries(att@.skip(2), entry as nat) =~= value_entries(
        att@.skip(2),
        entry as nat,
    ));
    while att.len() - i >= entry
        invariant
            2 <= i <= att@.len(),
            3 <= entry <= 255,
            entry_views(out@) + value_entries(att@.skip(i as int), entry as nat) == value_entries(
                att@.skip(2),
                entry as nat,
            ),
        decreases att@.len() - i,
    {
        let ghost rest = att@.skip(i as int);
        let handle: u16 = join16(att[i], att[i + 1]);
        let value = copy_range(att, i + 2, i + entry);
        assert(value@ =~= rest.subrange(2, entry as int));
        let ghost before = entry_views(out@);
        let ghost e = (handle, value@);
        out.push((handle, value));
        assert(entry_views(out@) =~= before.push(e));
        assert(rest.skip(entry as int) =~= att@.skip(i + entry));
        assert(entry_views(out@) + value_entries(att@.skip(i + entry), entry as nat) =~= before
            + value_entries(rest, entry as nat));
        i = i + entry;
    }
    assert(value_entries(att@.skip(i as int), entry as nat) =~= seq![]);
    assert(entry_views(out@) =~= value_entries(att@.skip(2), entry as nat));
    Some(out)
}

/// An ATT message that asks for one value.
pub open spec fn read_pdu(handle: u16) -> Seq<u8> {
    seq![ATT_READ_REQUEST] + bytes::le16(handle)
}

/// Build an ATT `Read Request` for one attribute's value.
pub fn read_request(handle: u16) -> (out: Vec<u8>)
    ensures
        out@ == read_pdu(handle),
{
    let mut out: Vec<u8> = Vec::new();
    out.push(ATT_READ_REQUEST);
    assert(out@ =~= seq![ATT_READ_REQUEST]);
    push16(&mut out, handle);
    out
}

/// The value in a `Read Response`, where `att` is one.
pub open spec fn read_value_of(att: Seq<u8>) -> Option<Seq<u8>> {
    if att.len() == 0 || att[0] != ATT_READ_RESPONSE {
        None
    } else {
        Some(att.skip(1))
    }
}

/// Decode a `Read Response` into the attribute value, or `None` if not one.
pub fn parse_read_response(att: &[u8]) -> (r: Option<Vec<u8>>)
    ensures
        match r {
            Some(v) => read_value_of(att@) == Some(v@),
            None => read_value_of(att@) is None,
        },
{
    if att.len() == 0 || att[0] != ATT_READ_RESPONSE {
        return None;
    }
    let v = copy_range(att, 1, att.len());
    assert(v@ =~= att@.skip(1));
    Some(v)
}

/// A decoded characteristic declaration.
#[derive(Debug, Clone, Copy, PartialEq, Eq)]
pub struct CharDecl {
    /// Handle of the declaration itself.
    pub decl_handle: u16,
    /// Property bits.
    pub properties: u8,
    /// Handle the value lives at, which is what notifications carry.
    pub value_handle: u16,
    pub uuid: AttUuid,
}

/// A [`CharDecl`] with its type by its view.
#[verifier::ext_equal]
pub struct CharDeclView {
    pub decl_handle: u16,
    pub properties: u8,
    pub value_handle: u16,
    pub uuid: AttUuidView,
}

impl View for CharDecl {
    type V = CharDeclView;

    open spec fn view(&self) -> CharDeclView {
        CharDeclView {
            decl_handle: self.decl_handle,
            properties: self.properties,
            value_handle: self.value_handle,
            uuid: self.uuid@,
        }
    }
}

/// The declarations of `all`, each by its view.
pub open spec fn decl_views(all: Seq<CharDecl>) -> Seq<CharDeclView> {
    all.map_values(|c: CharDecl| c@)
}

/// The opcode that an attribute with these properties accepts for a write. The
/// acknowledged form wins where both are offered, because it reports a refusal
/// instead of vanishing.
pub open spec fn write_opcode_of(properties: u8) -> Option<u8> {
    if properties & PROP_WRITE != 0 {
        Some(ATT_WRITE_REQUEST)
    } else if properties & PROP_WRITE_NO_RESPONSE != 0 {
        Some(ATT_WRITE_COMMAND)
    } else {
        None
    }
}

/// Whether a characteristic with these properties can push its value.
pub open spec fn can_notify(properties: u8) -> bool {
    properties & (PROP_NOTIFY | PROP_INDICATE) != 0
}

/// `list` with `name` at its end, behind a bar where it is not the first.
pub open spec fn listed(list: Seq<char>, on: bool, name: Seq<char>) -> Seq<char> {
    if !on {
        list
    } else if list.len() == 0 {
        name
    } else {
        list + "|"@ + name
    }
}

/// The names of the properties that are set, in order, with bars between them.
pub open spec fn properties_list(p: u8) -> Seq<char> {
    listed(
        listed(
            listed(
                listed(
                    listed(seq![], p & PROP_READ != 0, "READ"@),
                    p & PROP_WRITE_NO_RESPONSE != 0,
                    "WRITE_NO_RSP"@,
                ),
                p & PROP_WRITE != 0,
                "WRITE"@,
            ),
            p & PROP_NOTIFY != 0,
            "NOTIFY"@,
        ),
        p & PROP_INDICATE != 0,
        "INDICATE"@,
    )
}

/// What a characteristic can do, in words.
pub open spec fn properties_words(p: u8) -> Seq<char> {
    if properties_list(p).len() == 0 {
        "none"@
    } else {
        properties_list(p)
    }
}

/// Append `name` to a list of names where `on`.
fn push_listed(out: &mut String, on: bool, name: &str)
    ensures
        final(out)@ == listed(old(out)@, on, name@),
{
    if on {
        if !out.as_str().is_empty() {
            push_text(out, "|");
        }
        push_text(out, name);
        assert(out@ =~= listed(old(out)@, on, name@));
    }
}

impl CharDecl {
    /// Whether the value can be pushed by the controller.
    pub fn notifiable(&self) -> (r: bool)
        ensures
            r == can_notify(self.properties),
    {
        self.properties & (PROP_NOTIFY | PROP_INDICATE) != 0
    }

    /// The ATT opcode this characteristic will actually accept for a write. `None`
    /// means that it is not writable at all.
    pub fn write_opcode(&self) -> (r: Option<u8>)
        ensures
            r == write_opcode_of(self.properties),
    {
        if self.properties & PROP_WRITE != 0 {
            Some(ATT_WRITE_REQUEST)
        } else if self.properties & PROP_WRITE_NO_RESPONSE != 0 {
            Some(ATT_WRITE_COMMAND)
        } else {
            None
        }
    }

    /// Spell the property bits, so a log line explains a refusal by itself.
    pub fn properties_text(&self) -> (out: String)
        ensures
            out@ == properties_words(self.properties),
    {
        let p: u8 = self.properties;
        let mut out = String::new();
        assert(out@ =~= seq![]);
        push_listed(&mut out, p & PROP_READ != 0, "READ");
        push_listed(&mut out, p & PROP_WRITE_NO_RESPONSE != 0, "WRITE_NO_RSP");
        push_listed(&mut out, p & PROP_WRITE != 0, "WRITE");
        push_listed(&mut out, p & PROP_NOTIFY != 0, "NOTIFY");
        push_listed(&mut out, p & PROP_INDICATE != 0, "INDICATE");
        if out.as_str().is_empty() {
            return "none".to_owned();
        }
        out
    }
}

/// The declaration in `value`: `[properties][value handle][type]`.
pub open spec fn characteristic_of(decl_handle: u16, value: Seq<u8>) -> Option<CharDeclView> {
    if value.len() == 5 || value.len() == 19 {
        Some(
            CharDeclView {
                decl_handle,
                properties: value[0],
                value_handle: bytes::u16_at(value, 1),
                uuid: uuid_at(value, 3, value.len() == 19),
            },
        )
    } else {
        None
    }
}

/// Decode one characteristic declaration value.
pub fn parse_characteristic(decl_handle: u16, value: &[u8]) -> (r: Option<CharDecl>)
    ensures
        match r {
            Some(c) => characteristic_of(decl_handle, value@) == Some(c@),
            None => characteristic_of(decl_handle, value@) is None,
        },
{
    if value.len() != 5 && value.len() != 19 {
        return None;
    }
    Some(
        CharDecl {
            decl_handle,
            properties: value[0],
            value_handle: join16(value[1], value[2]),
            uuid: read_uuid(value, 3, value.len() == 19),
        },
    )
}

/// The error code in an ATT `Error Response`, where `att` is one.
pub open spec fn att_error_of(att: Seq<u8>) -> Option<u8> {
    if att.len() >= 5 && att[0] == ATT_ERROR_RESPONSE {
        Some(att[4])
    } else {
        None
    }
}

/// Is this ATT message an error response saying the walk has reached the end?
pub fn is_attribute_not_found(att: &[u8]) -> (r: bool)
    ensures
        r == (att_error_of(att@) == Some(ATT_ERR_ATTRIBUTE_NOT_FOUND)),
{
    att.len() >= 5 && att[0] == ATT_ERROR_RESPONSE && att[4] == ATT_ERR_ATTRIBUTE_NOT_FOUND
}

/// The error code from an ATT `Error Response`, if this message is one.
pub fn att_error_code(att: &[u8]) -> (r: Option<u8>)
    ensures
        r == att_error_of(att@),
{
    if att.len() >= 5 && att[0] == ATT_ERROR_RESPONSE {
        Some(att[4])
    } else {
        None
    }
}

/// What an ATT error code means.
pub open spec fn att_error_text(code: u8) -> Seq<char> {
    match code {
        0x01 => "Invalid Handle"@,
        0x02 => "Read Not Permitted"@,
        0x03 => "Write Not Permitted"@,
        0x04 => "Invalid PDU"@,
        0x05 => "Insufficient Authentication (the link must be ENCRYPTED first)"@,
        0x06 => "Request Not Supported"@,
        0x07 => "Invalid Offset"@,
        0x08 => "Insufficient Authorization"@,
        0x09 => "Prepare Queue Full"@,
        0x0A => "Attribute Not Found (end of the walk)"@,
        0x0B => "Attribute Not Long"@,
        0x0C => "Insufficient Encryption Key Size"@,
        0x0D => "Invalid Attribute Value Length"@,
        0x0E => "Unlikely Error"@,
        0x0F => "Insufficient Encryption (the link must be ENCRYPTED first)"@,
        0x10 => "Unsupported Group Type"@,
        0x11 => "Insufficient Resources"@,
        _ => "unknown ATT error"@,
    }
}

/// Spell an ATT error code, so a refused request says what it needs.
pub fn att_error_name(code: u8) -> (r: &'static str)
    ensures
        r@ == att_error_text(code),
{
    match code {
        0x01 => "Invalid Handle",
        0x02 => "Read Not Permitted",
        0x03 => "Write Not Permitted",
        0x04 => "Invalid PDU",
        0x05 => "Insufficient Authentication (the link must be ENCRYPTED first)",
        0x06 => "Request Not Supported",
        0x07 => "Invalid Offset",
        0x08 => "Insufficient Authorization",
        0x09 => "Prepare Queue Full",
        0x0A => "Attribute Not Found (end of the walk)",
        0x0B => "Attribute Not Long",
        0x0C => "Insufficient Encryption Key Size",
        0x0D => "Invalid Attribute Value Length",
        0x0E => "Unlikely Error",
        0x0F => "Insufficient Encryption (the link must be ENCRYPTED first)",
        0x10 => "Unsupported Group Type",
        0x11 => "Insufficient Resources",
        _ => "unknown ATT error",
    }
}

/// How a packet stands on the wire: twelve bits of handle under four of flags, the length of
/// what follows, the length of the message, the channel, and the message.
pub proof fn a_packet_stands_by_its_bytes(
    handle: u16,
    pb: u16,
    cid: u16,
    payload: Seq<u8>,
)
    requires
        handle < 0x1000,
        pb < 16,
        fits_acl(payload),
    ensures
        ({
            let f = acl_frame(handle, cid, payload, pb);
            let n = payload.len();
            &&& f.len() == n + 8
            &&& f[0] + 256 * f[1] == handle + 0x1000 * pb
            &&& f[2] + 256 * f[3] == n + 4
            &&& f[4] + 256 * f[5] == n
            &&& f[6] + 256 * f[7] == cid
            &&& f.skip(8) == payload
        }),
{
    acl_frame_fields(handle, cid, payload, pb);
    assert(acl_frame(handle, cid, payload, pb).skip(8) =~= payload);
}

/// A packet is read from where its fields stand, whatever its flags, unless these say that it
/// continues another; its own length decides where it ends, and what it announces must have
/// arrived.
pub proof fn a_packet_is_read_by_its_fields(
    handle: u16,
    flags: u16,
    cid: u16,
    payload: Seq<u8>,
    slack: Seq<u8>,
    more: Seq<u8>,
)
    requires
        handle < 0x1000,
        flags < 16,
        payload.len() + slack.len() + 4 <= 0xFFFF,
    ensures
        acl_of(
            bytes::le16((handle + 0x1000 * flags) as u16) + bytes::le16(
                (payload.len() + slack.len() + 4) as u16,
            ) + bytes::le16(payload.len() as u16) + bytes::le16(cid) + payload + slack + more,
        ) == if flags % 4 == 1 {
            None
        } else {
            Some(AclPacketView { conn_handle: handle, cid, payload })
        },
{
    let h = bytes::le16((handle + 0x1000 * flags) as u16);
    let t = bytes::le16((payload.len() + slack.len() + 4) as u16);
    let n = bytes::le16(payload.len() as u16);
    let c = bytes::le16(cid);
    let buf = h + t + n + c + payload + slack + more;
    bytes::le16_round_trips((handle + 0x1000 * flags) as u16);
    bytes::le16_round_trips((payload.len() + slack.len() + 4) as u16);
    bytes::le16_round_trips(payload.len() as u16);
    bytes::le16_round_trips(cid);
    assert(buf[0] == h[0] && buf[1] == h[1] && buf[2] == t[0] && buf[3] == t[1]);
    assert(buf[4] == n[0] && buf[5] == n[1] && buf[6] == c[0] && buf[7] == c[1]);
    assert(buf.subrange(8, 8 + payload.len() as int) =~= payload);
    assert(((handle + 0x1000 * flags) as u16 / 0x1000) as int == flags);
}

/// A notification is told by its first byte; behind it stand the handle, low byte first, and
/// the value. Nothing else is one.
pub proof fn a_notification_is_read(opcode: u8, handle: u16, value: Seq<u8>)
    ensures
        notification_of(seq![opcode, (handle % 256) as u8, (handle / 256) as u8] + value) == if opcode
            == 0x1B {
            Some(NotificationView { handle, value })
        } else {
            None
        },
        notification_of(seq![opcode, (handle % 256) as u8]) is None,
{
    let p = seq![opcode, (handle % 256) as u8, (handle / 256) as u8] + value;
    assert(p[0] == opcode && p[1] == (handle % 256) as u8 && p[2] == (handle / 256) as u8);
    assert(p.skip(3) =~= value);
}

/// A write stands as its opcode, the handle, low byte first, and the value; read as a
/// notification would be, it says the same of both.
pub proof fn a_write_stands_by_its_bytes(opcode: u8, handle: u16, value: Seq<u8>)
    ensures
        write_pdu(opcode, handle, value) == seq![
            opcode,
            (handle % 256) as u8,
            (handle / 256) as u8,
        ] + value,
        notification_of(write_pdu(0x1B, handle, value)) == Some(NotificationView { handle, value }),
{
    a_notification_is_read(0x1B, handle, value);
    assert(write_pdu(opcode, handle, value) =~= seq![
        opcode,
        (handle % 256) as u8,
        (handle / 256) as u8,
    ] + value);
    assert(write_pdu(0x1B, handle, value) =~= seq![
        0x1Bu8,
        (handle % 256) as u8,
        (handle / 256) as u8,
    ] + value);
}

/// The numbers that the specification of the protocol assigns: a response is the number after
/// its request, and a command is a request with a bit set that says that nobody answers.
pub proof fn the_assigned_numbers_of_attributes()
    ensures
        CID_ATT == 4,
        PB_FIRST == 0 && PB_CONTINUING == 1 && PB_FIRST_FLUSHABLE == 2,
        ATT_ERROR_RESPONSE == 0x01,
        ATT_EXCHANGE_MTU_REQUEST == 0x02,
        ATT_EXCHANGE_MTU_RESPONSE == ATT_EXCHANGE_MTU_REQUEST + 1,
        ATT_FIND_INFORMATION_REQUEST == 0x04,
        ATT_FIND_INFORMATION_RESPONSE == ATT_FIND_INFORMATION_REQUEST + 1,
        ATT_READ_BY_TYPE_REQUEST == 0x08,
        ATT_READ_BY_TYPE_RESPONSE == ATT_READ_BY_TYPE_REQUEST + 1,
        ATT_READ_REQUEST == 0x0A,
        ATT_READ_RESPONSE == ATT_READ_REQUEST + 1,
        ATT_WRITE_REQUEST == 0x12,
        ATT_WRITE_RESPONSE == ATT_WRITE_REQUEST + 1,
        ATT_WRITE_COMMAND == ATT_WRITE_REQUEST + 0x40,
        ATT_HANDLE_VALUE_NOTIFICATION == 0x1B,
        ATT_ERR_ATTRIBUTE_NOT_FOUND == 0x0A,
        GATT_CHARACTERISTIC == 0x2803,
        GATT_CCCD == 0x2902,
        PROP_READ == 2 && PROP_WRITE_NO_RESPONSE == 4 && PROP_WRITE == 8 && PROP_NOTIFY == 16
            && PROP_INDICATE == 32,
        CCCD_NOTIFY@ == seq![1u8, 0u8],
{
    assert(CCCD_NOTIFY@ =~= seq![1u8, 0u8]);
}

/// An attribute as a listing has it: its handle, low byte first, and its type as it came.
pub open spec fn attr_bytes(a: AttrInfoView) -> Seq<u8> {
    bytes::le16(a.handle) + (match a.uuid {
        AttUuidView::Short(v) => bytes::le16(v),
        AttUuidView::Long(b) => b,
    })
}

/// Attributes as a listing has them.
pub open spec fn attrs_bytes(all: Seq<AttrInfoView>) -> Seq<u8>
    decreases all.len(),
{
    if all.len() == 0 {
        seq![]
    } else {
        attr_bytes(all[0]) + attrs_bytes(all.skip(1))
    }
}

/// Whether attributes have types of one length, all long or all short.
pub open spec fn of_one_length(all: Seq<AttrInfoView>, long: bool) -> bool {
    forall|i: int|
        0 <= i < all.len() ==> match (#[trigger] all[i]).uuid {
            AttUuidView::Short(_) => !long,
            AttUuidView::Long(b) => long && b.len() == 16,
        }
}

/// Every attribute that is listed is found, in order, with its handle and its type; what
/// follows the last whole one is not.
pub proof fn listed_attributes_come_back(all: Seq<AttrInfoView>, long: bool, cut: Seq<u8>)
    requires
        of_one_length(all, long),
        cut.len() < if long {
            18
        } else {
            4int
        },
    ensures
        find_information_of(
            seq![
                0x05u8,
                if long {
                    2u8
                } else {
                    1u8
                },
            ] + attrs_bytes(all) + cut,
        ) == Some(all),
{
    let att = seq![
        0x05u8,
        if long {
            2u8
        } else {
            1u8
        },
    ] + attrs_bytes(all) + cut;
    assert(att.skip(2) =~= attrs_bytes(all) + cut);
    assert(att[0] == 5);
    assert(att[1] == if long {
        2u8
    } else {
        1u8
    });
    attr_entries_come_back(all, long, cut);
}

/// Entries of a listing come back.
proof fn attr_entries_come_back(all: Seq<AttrInfoView>, long: bool, cut: Seq<u8>)
    requires
        of_one_length(all, long),
        cut.len() < if long {
            18
        } else {
            4int
        },
    ensures
        attr_entries(attrs_bytes(all) + cut, long) == all,
    decreases all.len(),
{
    let s = attrs_bytes(all) + cut;
    if all.len() == 0 {
        assert(s =~= cut);
        assert(attr_entries(s, long) =~= all);
    } else {
        let rest = all.skip(1);
        assert forall|i: int| 0 <= i < rest.len() implies match (#[trigger] rest[i]).uuid {
            AttUuidView::Short(_) => !long,
            AttUuidView::Long(b) => long && b.len() == 16,
        } by {
            assert(rest[i] == all[i + 1]);
        }
        attr_entries_come_back(rest, long, cut);
        let a = all[0];
        let h = bytes::le16(a.handle);
        bytes::le16_round_trips(a.handle);
        let e = attr_bytes(a);
        assert(s[0] == h[0] && s[1] == h[1]);
        if long {
            assert(s.subrange(2, 18) =~= a.uuid->Long_0);
            assert(s.skip(18) =~= attrs_bytes(rest) + cut);
        } else {
            let v = a.uuid->Short_0;
            bytes::le16_round_trips(v);
            assert(s[2] == bytes::le16(v)[0] && s[3] == bytes::le16(v)[1]);
            assert(s.skip(4) =~= attrs_bytes(rest) + cut);
        }
        assert(all =~= seq![a] + rest);
        assert(uuid_at(s, 2, long) == a.uuid);
        assert(attr_entries(s, long) =~= all);
    }
}

/// Values as a listing has them, each behind its handle.
pub open spec fn values_bytes(all: Seq<(u16, Seq<u8>)>) -> Seq<u8>
    decreases all.len(),
{
    if all.len() == 0 {
        seq![]
    } else {
        bytes::le16(all[0].0) + all[0].1 + values_bytes(all.skip(1))
    }
}

/// Every value that is listed is found, in order, with its handle, by the length that the
/// listing says of each; what follows the last whole one is not.
pub proof fn listed_values_come_back(all: Seq<(u16, Seq<u8>)>, entry: u8, cut: Seq<u8>)
    requires
        entry >= 3,
        forall|i: int| 0 <= i < all.len() ==> (#[trigger] all[i]).1.len() == entry - 2,
        cut.len() < entry,
    ensures
        read_by_type_of(seq![0x09u8, entry] + values_bytes(all) + cut) == Some(all),
{
    let att = seq![0x09u8, entry] + values_bytes(all) + cut;
    assert(att[0] == 9 && att[1] == entry);
    assert(att.skip(2) =~= values_bytes(all) + cut);
    value_entries_come_back(all, entry as nat, cut);
}

/// Entries of a listing come back.
proof fn value_entries_come_back(all: Seq<(u16, Seq<u8>)>, entry: nat, cut: Seq<u8>)
    requires
        entry >= 3,
        forall|i: int| 0 <= i < all.len() ==> (#[trigger] all[i]).1.len() == entry - 2,
        cut.len() < entry,
    ensures
        value_entries(values_bytes(all) + cut, entry) == all,
    decreases all.len(),
{
    let s = values_bytes(all) + cut;
    if all.len() == 0 {
        assert(s =~= cut);
        assert(value_entries(s, entry) =~= all);
    } else {
        let rest = all.skip(1);
        assert forall|i: int| 0 <= i < rest.len() implies (#[trigger] rest[i]).1.len() == entry - 2 by {
            assert(rest[i] == all[i + 1]);
        }
        value_entries_come_back(rest, entry, cut);
        let h = bytes::le16(all[0].0);
        bytes::le16_round_trips(all[0].0);
        assert(s[0] == h[0] && s[1] == h[1]);
        assert(s.subrange(2, entry as int) =~= all[0].1);
        assert(s.skip(entry as int) =~= values_bytes(rest) + cut);
        assert(all =~= seq![all[0]] + rest);
        assert(value_entries(s, entry) =~= all);
    }
}

/// A listing is read only where it is one: by its first byte, and by a format that exists.
pub proof fn only_listings_are_read(att: Seq<u8>)
    ensures
        att.len() < 2 || att[0] != 0x05 || att[1] == 0 || att[1] > 2 <==> find_information_of(
            att,
        ) is None,
        att.len() < 2 || att[0] != 0x09 || att[1] < 3 <==> read_by_type_of(att) is None,
        att.len() == 0 || att[0] != 0x0B <==> read_value_of(att) is None,
        att.len() > 0 && att[0] == 0x0B ==> seq![0x0Bu8] + read_value_of(att)->0 == att,
{
    if att.len() > 0 && att[0] == 0x0B {
        assert(seq![0x0Bu8] + att.skip(1) =~= att);
    }
}

/// A declaration says its properties, the handle of its value, and its type, short or long;
/// nothing of another length is one.
pub proof fn a_declaration_is_read(decl: u16, properties: u8, handle: u16, short: u16, long: Seq<u8>, other: Seq<u8>)
    requires
        long.len() == 16,
        other.len() != 5,
        other.len() != 19,
    ensures
        characteristic_of(decl, seq![properties] + bytes::le16(handle) + bytes::le16(short))
            == Some(
            CharDeclView {
                decl_handle: decl,
                properties,
                value_handle: handle,
                uuid: AttUuidView::Short(short),
            },
        ),
        characteristic_of(decl, seq![properties] + bytes::le16(handle) + long) == Some(
            CharDeclView {
                decl_handle: decl,
                properties,
                value_handle: handle,
                uuid: AttUuidView::Long(long),
            },
        ),
        characteristic_of(decl, other) is None,
{
    let h = bytes::le16(handle);
    bytes::le16_round_trips(handle);
    bytes::le16_round_trips(short);
    let p = seq![properties] + h + bytes::le16(short);
    assert(p[0] == properties && p[1] == h[0] && p[2] == h[1]);
    assert(p[3] == bytes::le16(short)[0] && p[4] == bytes::le16(short)[1]);
    let q = seq![properties] + h + long;
    assert(q[0] == properties && q[1] == h[0] && q[2] == h[1]);
    assert(q.subrange(3, 19) =~= long);
}

/// What a characteristic accepts is told by two of its bits, of which the one for an
/// acknowledged write counts first, whatever the others say.
pub proof fn a_write_is_acknowledged_where_it_can_be(low: u8, plain: bool, acknowledged: bool, high: u8)
    requires
        low < 4,
        high < 16,
    ensures
        write_opcode_of(
            (low + (if plain {
                4int
            } else {
                0
            }) + (if acknowledged {
                8int
            } else {
                0
            }) + 16 * high) as u8,
        ) == if acknowledged {
            Some(0x12u8)
        } else if plain {
            Some(0x52u8)
        } else {
            None
        },
{
    let p = (low + (if plain {
        4int
    } else {
        0
    }) + (if acknowledged {
        8int
    } else {
        0
    }) + 16 * high) as u8;
    let e = (p / 8) % 2;
    let f = (p / 4) % 2;
    assert(p & 8 == 8 * ((p / 8) % 2)) by (bit_vector);
    assert(p & 4 == 4 * ((p / 4) % 2)) by (bit_vector);
    assert(e == if acknowledged {
        1int
    } else {
        0
    });
    assert(f == if plain {
        1int
    } else {
        0
    });
}

/// An error is told by its first byte, and its reason stands fifth: behind what was asked and
/// the handle it was asked of.
pub proof fn an_error_is_read(opcode: u8, asked: u8, handle: u16, reason: u8, more: Seq<u8>)
    ensures
        att_error_of(seq![opcode, asked] + bytes::le16(handle) + seq![reason] + more) == if opcode
            == 0x01 {
            Some(reason)
        } else {
            None
        },
        att_error_of(seq![opcode, asked] + bytes::le16(handle)) is None,
{
    let p = seq![opcode, asked] + bytes::le16(handle) + seq![reason] + more;
    assert(p[0] == opcode && p[4] == reason);
}

/// A long type is written most significant byte first, in groups of eight, four, four, four
/// and twelve digits; the wire has it the other way round.
pub proof fn a_long_type_is_grouped(b: Seq<u8>, i: int)
    requires
        b.len() == 16,
        0 <= i < 16,
    ensures
        ({
            let t = uuid_text(AttUuidView::Long(b));
            let at = 2 * i + (if i < 4 {
                0int
            } else if i < 6 {
                1
            } else if i < 8 {
                2
            } else if i < 10 {
                3
            } else {
                4
            });
            &&& t.len() == 36
            &&& t[8] == '-' && t[13] == '-' && t[18] == '-' && t[23] == '-'
            &&& t.subrange(at, at + 2) == text::hex2(b[15 - i])
        }),
{
    reveal_strlit("-");
    let r = bytes::reversed(b);
    let p1 = r.subrange(0, 4);
    let p2 = r.subrange(4, 6);
    let p3 = r.subrange(6, 8);
    let p4 = r.subrange(8, 10);
    let p5 = r.subrange(10, 16);
    text::hex_of_by_index(p1);
    text::hex_of_by_index(p2);
    text::hex_of_by_index(p3);
    text::hex_of_by_index(p4);
    text::hex_of_by_index(p5);
    let h1 = text::hex_of(p1);
    let h2 = text::hex_of(p2);
    let h3 = text::hex_of(p3);
    let h4 = text::hex_of(p4);
    let h5 = text::hex_of(p5);
    let t = uuid_text(AttUuidView::Long(b));
    assert(t =~= h1 + "-"@ + h2 + "-"@ + h3 + "-"@ + h4 + "-"@ + h5);
    if i < 4 {
        assert(t.subrange(2 * i, 2 * i + 2) =~= h1.subrange(2 * i, 2 * i + 2));
        assert(h1.subrange(2 * i, 2 * i + 2) == text::hex2(p1[i]));
    } else if i < 6 {
        let k = i - 4;
        assert(t.subrange(9 + 2 * k, 11 + 2 * k) =~= h2.subrange(2 * k, 2 * k + 2));
        assert(h2.subrange(2 * k, 2 * k + 2) == text::hex2(p2[k]));
    } else if i < 8 {
        let k = i - 6;
        assert(t.subrange(14 + 2 * k, 16 + 2 * k) =~= h3.subrange(2 * k, 2 * k + 2));
        assert(h3.subrange(2 * k, 2 * k + 2) == text::hex2(p3[k]));
    } else if i < 10 {
        let k = i - 8;
        assert(t.subrange(19 + 2 * k, 21 + 2 * k) =~= h4.subrange(2 * k, 2 * k + 2));
        assert(h4.subrange(2 * k, 2 * k + 2) == text::hex2(p4[k]));
    } else {
        let k = i - 10;
        assert(t.subrange(24 + 2 * k, 26 + 2 * k) =~= h5.subrange(2 * k, 2 * k + 2));
        assert(h5.subrange(2 * k, 2 * k + 2) == text::hex2(p5[k]));
    }
}

/// Every request is told by its first byte, and what it asks of stands behind it in order, low
/// byte first.
pub proof fn requests_stand_by_their_bytes(mtu: u16, start: u16, end: u16, uuid: u16, handle: u16)
    ensures
        mtu_pdu(mtu) == seq![0x02u8, (mtu % 256) as u8, (mtu / 256) as u8],
        read_pdu(handle) == seq![0x0Au8, (handle % 256) as u8, (handle / 256) as u8],
        find_pdu(start, end) == seq![
            0x04u8,
            (start % 256) as u8,
            (start / 256) as u8,
            (end % 256) as u8,
            (end / 256) as u8,
        ],
        read_by_type_pdu(start, end, uuid) == seq![
            0x08u8,
            (start % 256) as u8,
            (start / 256) as u8,
            (end % 256) as u8,
            (end / 256) as u8,
            (uuid % 256) as u8,
            (uuid / 256) as u8,
        ],
{
    assert(mtu_pdu(mtu) =~= seq![0x02u8, (mtu % 256) as u8, (mtu / 256) as u8]);
    assert(read_pdu(handle) =~= seq![0x0Au8, (handle % 256) as u8, (handle / 256) as u8]);
    assert(find_pdu(start, end) =~= seq![
        0x04u8,
        (start % 256) as u8,
        (start / 256) as u8,
        (end % 256) as u8,
        (end / 256) as u8,
    ]);
    assert(read_by_type_pdu(start, end, uuid) =~= seq![
        0x08u8,
        (start % 256) as u8,
        (start / 256) as u8,
        (end % 256) as u8,
        (end / 256) as u8,
        (uuid % 256) as u8,
        (uuid / 256) as u8,
    ]);
}

/// A characteristic can push its value exactly where it can notify or indicate, whatever its
/// other bits say.
pub proof fn either_bit_lets_a_value_be_pushed(low: u8, notify: bool, indicate: bool, high: u8)
    requires
        low < 16,
        high < 4,
    ensures
        can_notify(
            (low + (if notify {
                16int
            } else {
                0
            }) + (if indicate {
                32int
            } else {
                0
            }) + 64 * high) as u8,
        ) <==> notify || indicate,
{
    let p = (low + (if notify {
        16int
    } else {
        0
    }) + (if indicate {
        32int
    } else {
        0
    }) + 64 * high) as u8;
    assert(p & (0x10u8 | 0x20u8) == 16 * ((p / 16) % 4)) by (bit_vector);
    assert((p / 16) % 4 == (if notify {
        1int
    } else {
        0
    }) + (if indicate {
        2int
    } else {
        0
    }));
}

/// What a characteristic can do is named from the lowest bit to the highest, with bars between:
/// one more property adds its name behind those of the lower bits. Other bits say nothing, and
/// without any property there is a word for that.
pub proof fn properties_are_named_in_order(p: u8)
    ensures
        p & 0x3E == 0 ==> properties_words(p) == "none"@,
        properties_list(p) == properties_list(p & 0x3E),
        p & 0x3E == 0 ==> properties_list(p | 0x02) == "READ"@,
        p & 0x3C == 0 ==> properties_list(p | 0x04) == behind(properties_list(p), "WRITE_NO_RSP"@),
        p & 0x38 == 0 ==> properties_list(p | 0x08) == behind(properties_list(p), "WRITE"@),
        p & 0x30 == 0 ==> properties_list(p | 0x10) == behind(properties_list(p), "NOTIFY"@),
        p & 0x20 == 0 ==> properties_list(p | 0x20) == behind(properties_list(p), "INDICATE"@),
{
    reveal_strlit("READ");
    reveal_strlit("WRITE_NO_RSP");
    reveal_strlit("WRITE");
    reveal_strlit("NOTIFY");
    reveal_strlit("INDICATE");
    reveal_strlit("|");
    let q = p & 0x3E;
    assert(q & 0x02 == p & 0x02 && q & 0x04 == p & 0x04 && q & 0x08 == p & 0x08 && q & 0x10 == p
        & 0x10 && q & 0x20 == p & 0x20) by (bit_vector)
        requires
            q == p & 0x3E,
    ;
    assert(p & 0x3E == 0 ==> p & 0x02 == 0 && p & 0x3C == 0) by (bit_vector);
    assert(p & 0x3C == 0 ==> p & 0x04 == 0 && p & 0x38 == 0) by (bit_vector);
    assert(p & 0x38 == 0 ==> p & 0x08 == 0 && p & 0x30 == 0) by (bit_vector);
    assert(p & 0x30 == 0 ==> p & 0x10 == 0 && p & 0x20 == 0) by (bit_vector);
    a_bit_more(p);
}

/// A name behind others, with a bar between.
pub open spec fn behind(list: Seq<char>, name: Seq<char>) -> Seq<char> {
    if list.len() == 0 {
        name
    } else {
        list + seq!['|'] + name
    }
}

/// Setting a bit sets no other.
proof fn a_bit_more(p: u8)
    ensures
        (p | 0x02) & 0x02 != 0 && (p | 0x04) & 0x04 != 0 && (p | 0x08) & 0x08 != 0 && (p | 0x10)
            & 0x10 != 0 && (p | 0x20) & 0x20 != 0,
        (p | 0x02) & 0x04 == p & 0x04 && (p | 0x02) & 0x08 == p & 0x08 && (p | 0x02) & 0x10 == p
            & 0x10 && (p | 0x02) & 0x20 == p & 0x20,
        (p | 0x04) & 0x02 == p & 0x02 && (p | 0x04) & 0x08 == p & 0x08 && (p | 0x04) & 0x10 == p
            & 0x10 && (p | 0x04) & 0x20 == p & 0x20,
        (p | 0x08) & 0x02 == p & 0x02 && (p | 0x08) & 0x04 == p & 0x04 && (p | 0x08) & 0x10 == p
            & 0x10 && (p | 0x08) & 0x20 == p & 0x20,
        (p | 0x10) & 0x02 == p & 0x02 && (p | 0x10) & 0x04 == p & 0x04 && (p | 0x10) & 0x08 == p
            & 0x08 && (p | 0x10) & 0x20 == p & 0x20,
        (p | 0x20) & 0x02 == p & 0x02 && (p | 0x20) & 0x04 == p & 0x04 && (p | 0x20) & 0x08 == p
            & 0x08 && (p | 0x20) & 0x10 == p & 0x10,
{
    assert((p | 0x02) & 0x02 != 0 && (p | 0x04) & 0x04 != 0 && (p | 0x08) & 0x08 != 0 && (p | 0x10)
        & 0x10 != 0 && (p | 0x20) & 0x20 != 0) by (bit_vector);
    assert((p | 0x02) & 0x04 == p & 0x04 && (p | 0x02) & 0x08 == p & 0x08 && (p | 0x02) & 0x10 == p
        & 0x10 && (p | 0x02) & 0x20 == p & 0x20) by (bit_vector);
    assert((p | 0x04) & 0x02 == p & 0x02 && (p | 0x04) & 0x08 == p & 0x08 && (p | 0x04) & 0x10 == p
        & 0x10 && (p | 0x04) & 0x20 == p & 0x20) by (bit_vector);
    assert((p | 0x08) & 0x02 == p & 0x02 && (p | 0x08) & 0x04 == p & 0x04 && (p | 0x08) & 0x10 == p
        & 0x10 && (p | 0x08) & 0x20 == p & 0x20) by (bit_vector);
    assert((p | 0x10) & 0x02 == p & 0x02 && (p | 0x10) & 0x04 == p & 0x04 && (p | 0x10) & 0x08 == p
        & 0x08 && (p | 0x10) & 0x20 == p & 0x20) by (bit_vector);
    assert((p | 0x20) & 0x02 == p & 0x02 && (p | 0x20) & 0x04 == p & 0x04 && (p | 0x20) & 0x08 == p
        & 0x08 && (p | 0x20) & 0x10 == p & 0x10) by (bit_vector);
}

/// What the codes of the attribute protocol mean: the assigned ones have their words, and every
/// other code has the same.
pub proof fn errors_have_their_words(code: u8)
    ensures
        code == 0x01 ==> att_error_text(code) == "Invalid Handle"@,
        code == 0x02 ==> att_error_text(code) == "Read Not Permitted"@,
        code == 0x03 ==> att_error_text(code) == "Write Not Permitted"@,
        code == 0x04 ==> att_error_text(code) == "Invalid PDU"@,
        code == 0x05 ==> att_error_text(code)
            == "Insufficient Authentication (the link must be ENCRYPTED first)"@,
        code == 0x06 ==> att_error_text(code) == "Request Not Supported"@,
        code == 0x07 ==> att_error_text(code) == "Invalid Offset"@,
        code == 0x08 ==> att_error_text(code) == "Insufficient Authorization"@,
        code == 0x09 ==> att_error_text(code) == "Prepare Queue Full"@,
        code == 0x0A ==> att_error_text(code) == "Attribute Not Found (end of the walk)"@,
        code == 0x0B ==> att_error_text(code) == "Attribute Not Long"@,
        code == 0x0C ==> att_error_text(code) == "Insufficient Encryption Key Size"@,
        code == 0x0D ==> att_error_text(code) == "Invalid Attribute Value Length"@,
        code == 0x0E ==> att_error_text(code) == "Unlikely Error"@,
        code == 0x0F ==> att_error_text(code)
            == "Insufficient Encryption (the link must be ENCRYPTED first)"@,
        code == 0x10 ==> att_error_text(code) == "Unsupported Group Type"@,
        code == 0x11 ==> att_error_text(code) == "Insufficient Resources"@,
        code == 0 || code > 0x11 ==> att_error_text(code) == "unknown ATT error"@,
{
}

} // verus!
