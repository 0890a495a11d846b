//! L2CAP signalling: connection-oriented channels for BR/EDR.
//!
//! An LE link has a fixed channel that exists the moment the link does. Classic HID
//! has no such thing: each channel must be requested by its service number, granted a
//! pair of channel ids, and then configured by both ends before a single byte of
//! payload may cross it.
//!
//! ```text
//!   host                                    controller
//!    |-- Connection Request  (service, our id) ->|
//!    |<-- Connection Response (their id, ok) ----|
//!    |-- Configuration Request (size) ---------->|
//!    |<-- Configuration Response (ok) -----------|
//!    |<-- Configuration Request -----------------|   (they configure us)
//!    |-- Configuration Response (ok) ----------->|
//!    |                  channel open             |
//! ```
use vstd::prelude::*;
use crate::bytes;
use crate::bytes::{copy_range, join16, len16, push16, push_all};

verus! {

/// The channel where connection and configuration live.
pub const CID_SIGNALLING: u16 = 0x0001;

/// HID control service, from the HID profile.
pub const PSM_HID_CONTROL: u16 = 0x0011;

/// HID interrupt service: input reports arrive here.
pub const PSM_HID_INTERRUPT: u16 = 0x0013;

pub const SIG_CONNECTION_REQUEST: u8 = 0x02;

pub const SIG_CONNECTION_RESPONSE: u8 = 0x03;

pub const SIG_CONFIGURE_REQUEST: u8 = 0x04;

pub const SIG_CONFIGURE_RESPONSE: u8 = 0x05;

pub const SIG_DISCONNECTION_REQUEST: u8 = 0x06;

pub const SIG_DISCONNECTION_RESPONSE: u8 = 0x07;

/// First dynamically allocated channel id. Everything below is reserved for the fixed
/// channels.
pub const FIRST_DYNAMIC_CID: u16 = 0x0040;

/// One decoded signalling command.
#[derive(Debug, Clone, PartialEq, Eq)]
pub struct Signal {
    pub code: u8,
    pub identifier: u8,
    pub data: Vec<u8>,
}

/// A [`Signal`] with its data as a sequence.
#[verifier::ext_equal]
pub struct SignalView {
    pub code: u8,
    pub identifier: u8,
    pub data: Seq<u8>,
}

impl View for Signal {
    type V = SignalView;

    open spec fn view(&self) -> SignalView {
        SignalView { code: self.code, identifier: self.identifier, data: self.data@ }
    }
}

/// A signalling command: `[code][identifier][length u16][data..]`.
pub open spec fn signal_frame(code: u8, identifier: u8, data: Seq<u8>) -> Seq<u8> {
    seq![code, identifier] + bytes::le16(bytes::low16(data.len())) + data
}

/// Wrap a signalling command for sending on [`CID_SIGNALLING`].
pub fn encode_signal(code: u8, identifier: u8, data: &[u8]) -> (v: Vec<u8>)
    ensures
        v@ == signal_frame(code, identifier, data@),
{
    let mut v: Vec<u8> = Vec::new();
    v.push(code);
    v.push(identifier);
    assert(v@ =~= seq![code, identifier]);
    push16(&mut v, len16(data.len()));
    push_all(&mut v, data);
    v
}

/// The signalling command in `payload`, where all of it arrived.
pub open spec fn signal_of(payload: Seq<u8>) -> Option<SignalView> {
    if payload.len() < 4 || payload.len() < 4 + bytes::u16_at(payload, 2) {
        None
    } else {
        Some(
            SignalView {
                code: payload[0],
                identifier: payload[1],
                data: payload.subrange(4, 4 + bytes::u16_at(payload, 2)),
            },
        )
    }
}

/// Decode one signalling command from an L2CAP payload.
///
/// A short packet is refused: a command decoded from the wrong bytes produces a
/// plausible channel id, and acting on it corrupts a channel that was working.
pub fn parse_signal(payload: &[u8]) -> (r: Option<Signal>)
    ensures
        match r {
            Some(s) => signal_of(payload@) == Some(s@),
            None => signal_of(payload@) is None,
        },
{
    if payload.len() < 4 {
        return None;
    }
    let len: usize = join16(payload[2], payload[3]) as usize;
    if payload.len() < 4 + len {
        return None;
    }
    Some(
        Signal {
            code: payload[0],
            identifier: payload[1],
            data: copy_range(payload, 4, 4 + len),
        },
    )
}

/// Decoding an encoded signalling command gives it back.
pub proof fn signal_round_trips(code: u8, identifier: u8, data: Seq<u8>)
    requires
        data.len() <= 0xFFFF,
    ensures
        signal_of(signal_frame(code, identifier, data)) == Some(
            SignalView { code, identifier, data },
        ),
{
    let f = signal_frame(code, identifier, data);
    let l = bytes::le16(bytes::low16(data.len()));
    bytes::le16_round_trips(bytes::low16(data.len()));
    assert(f[2] == l[0] && f[3] == l[1]);
    assert(f.subrange(4, 4 + data.len() as int) =~= data);
}

/// No proper prefix of an encoded signalling command decodes.
pub proof fn a_truncated_signal_is_refused(code: u8, identifier: u8, data: Seq<u8>, cut: int)
    requires
        data.len() <= 0xFFFF,
        0 <= cut < signal_frame(code, identifier, data).len(),
    ensures
        signal_of(signal_frame(code, identifier, data).take(cut)) is None,
{
    let f = signal_frame(code, identifier, data);
    let l = bytes::le16(bytes::low16(data.len()));
    bytes::le16_round_trips(bytes::low16(data.len()));
    assert(f[2] == l[0] && f[3] == l[1]);
    if cut >= 4 {
        assert(f.take(cut)[2] == f[2]);
        assert(f.take(cut)[3] == f[3]);
    }
}

/// The data of a `Connection Request`: which service, and the id we will listen on.
pub open spec fn connection_request_data(psm: u16, source_cid: u16) -> Seq<u8> {
    bytes::le16(psm) + bytes::le16(source_cid)
}

/// Two 16-bit values, one after the other.
fn two_words(a: u16, b: u16) -> (d: Vec<u8>)
    ensures
        d@ == bytes::le16(a) + bytes::le16(b),
{
    let mut d: Vec<u8> = Vec::new();
    push16(&mut d, a);
    assert(d@ =~= bytes::le16(a));
    push16(&mut d, b);
    d
}

/// `Connection Request`: which service, and the channel id we will listen on.
pub fn connection_request(psm: u16, source_cid: u16) -> (d: Vec<u8>)
    ensures
        d@ == connection_request_data(psm, source_cid),
{
    two_words(psm, source_cid)
}

/// The service and the remote channel id in a `Connection Request`.
pub open spec fn connection_request_of(data: Seq<u8>) -> Option<(u16, u16)> {
    if data.len() < 4 {
        None
    } else {
        Some((bytes::u16_at(data, 0), bytes::u16_at(data, 2)))
    }
}

/// The service and remote channel id out of an incoming `Connection Request`.
///
/// A reconnecting HID device opens the channels itself and waits to be answered; a
/// host that sends requests of its own meanwhile blocks both sides.
pub fn parse_connection_request(data: &[u8]) -> (r: Option<(u16, u16)>)
    ensures
        r == connection_request_of(data@),
{
    if data.len() < 4 {
        return None;
    }
    Some((join16(data[0], data[1]), join16(data[2], data[3])))
}

/// The data of a `Connection Response` with no further information.
pub open spec fn connection_response_data(dest_cid: u16, source_cid: u16, result: u16) -> Seq<u8> {
    bytes::le16(dest_cid) + bytes::le16(source_cid) + bytes::le16(result) + bytes::le16(0)
}

/// Answer a `Connection Request`.
///
/// `dest_cid` is the id the remote will send to (ours); `source_cid` is the id it
/// asked to receive on. `result` is `0x0000` for success.
pub fn connection_response(dest_cid: u16, source_cid: u16, result: u16) -> (d: Vec<u8>)
    ensures
        d@ == connection_response_data(dest_cid, source_cid, result),
{
    let mut d = two_words(dest_cid, source_cid);
    push16(&mut d, result);
    push16(&mut d, 0);
    d
}

/// The outcome of a `Connection Response`.
#[derive(Debug, Clone, Copy, PartialEq, Eq, Structural)]
pub struct ConnectionResponse {
    /// The channel id to send to.
    pub dest_cid: u16,
    /// The channel id we asked to receive on.
    pub source_cid: u16,
    /// `0x0000` success, `0x0001` pending, anything else a refusal.
    pub result: u16,
    pub status: u16,
}

/// The outcome that a `Connection Response` states.
pub open spec fn connection_response_of(data: Seq<u8>) -> Option<ConnectionResponse> {
    if data.len() < 8 {
        None
    } else {
        Some(
            ConnectionResponse {
                dest_cid: bytes::u16_at(data, 0),
                source_cid: bytes::u16_at(data, 2),
                result: bytes::u16_at(data, 4),
                status: bytes::u16_at(data, 6),
            },
        )
    }
}

/// Decode a `Connection Response`.
pub fn parse_connection_response(data: &[u8]) -> (r: Option<ConnectionResponse>)
    ensures
        r == connection_response_of(data@),
{
    if data.len() < 8 {
        return None;
    }
    Some(
        ConnectionResponse {
            dest_cid: join16(data[0], data[1]),
            source_cid: join16(data[2], data[3]),
            result: join16(data[4], data[5]),
            status: join16(data[6], data[7]),
        },
    )
}

/// The data of a `Configuration Request` with a size option and nothing else.
pub open spec fn configure_request_data(dest_cid: u16, mtu: u16) -> Seq<u8> {
    bytes::le16(dest_cid) + bytes::le16(0) + seq![0x01u8, 0x02u8] + bytes::le16(mtu)
}

/// `Configuration Request` carrying just a size option.
///
/// One option, deliberately: offering more is more that can be rejected.
pub fn configure_request(dest_cid: u16, mtu: u16) -> (d: Vec<u8>)
    ensures
        d@ == configure_request_data(dest_cid, mtu),
{
    let mut d = two_words(dest_cid, 0);
    let ghost head = d@;
    d.push(0x01);
    d.push(0x02);
    assert(d@ =~= head + seq![0x01u8, 0x02u8]);
    push16(&mut d, mtu);
    d
}

/// The data of a `Configuration Response` that accepts `options`.
pub open spec fn configure_response_data(source_cid: u16, options: Seq<u8>) -> Seq<u8> {
    bytes::le16(source_cid) + bytes::le16(0) + bytes::le16(0) + options
}

/// `Configuration Response` accepting whatever the remote asked for.
///
/// The remote's own options are echoed back unchanged: a controller that asked for a
/// size and got a bare "success" may re-request forever.
pub fn configure_response(source_cid: u16, options: &[u8]) -> (d: Vec<u8>)
    ensures
        d@ == configure_response_data(source_cid, options@),
{
    let mut d = two_words(source_cid, 0);
    push16(&mut d, 0);
    push_all(&mut d, options);
    d
}

/// The channel and the options in a `Configuration Request`.
pub open spec fn configure_request_of(data: Seq<u8>) -> Option<(u16, Seq<u8>)> {
    if data.len() < 4 {
        None
    } else {
        Some((bytes::u16_at(data, 0), data.skip(4)))
    }
}

/// The destination channel and option bytes out of an incoming `Configuration
/// Request`.
pub fn parse_configure_request(data: &[u8]) -> (r: Option<(u16, Vec<u8>)>)
    ensures
        match r {
            Some(p) => configure_request_of(data@) == Some((p.0, p.1@)),
            None => configure_request_of(data@) is None,
        },
{
    if data.len() < 4 {
        return None;
    }
    let options = copy_range(data, 4, data.len());
    assert(options@ =~= data@.skip(4));
    Some((join16(data[0], data[1]), options))
}

/// The channel and the result in a `Configuration Response`.
pub open spec fn configure_response_of(data: Seq<u8>) -> Option<(u16, u16)> {
    if data.len() < 6 {
        None
    } else {
        Some((bytes::u16_at(data, 0), bytes::u16_at(data, 4)))
    }
}

/// The channel id and result of a `Configuration Response`.
///
/// The id names our own endpoint; without it a success for one channel is
/// indistinguishable from one for another.
pub fn parse_configure_response_full(data: &[u8]) -> (r: Option<(u16, u16)>)
    ensures
        r == configure_response_of(data@),
{
    if data.len() < 6 {
        return None;
    }
    Some((join16(data[0], data[1]), join16(data[4], data[5])))
}

/// The result field of a `Configuration Response`.
pub fn parse_configure_response(data: &[u8]) -> (r: Option<u16>)
    ensures
        r == match configure_response_of(data@) {
            Some(p) => Some(p.1),
            None => None,
        },
{
    if data.len() < 6 {
        return None;
    }
    Some(join16(data[4], data[5]))
}

/// The data of a `Disconnection Request`.
pub open spec fn disconnection_request_data(dest_cid: u16, source_cid: u16) -> Seq<u8> {
    bytes::le16(dest_cid) + bytes::le16(source_cid)
}

/// `Disconnection Request`, so a channel is closed rather than abandoned.
pub fn disconnection_request(dest_cid: u16, source_cid: u16) -> (d: Vec<u8>)
    ensures
        d@ == disconnection_request_data(dest_cid, source_cid),
{
    two_words(dest_cid, source_cid)
}

/// A negotiated channel.
#[derive(Debug, Clone, Copy, PartialEq, Eq, Structural)]
pub struct Channel {
    pub psm: u16,
    /// Our id: what inbound packets for this channel are addressed to.
    pub local_cid: u16,
    /// Their id: what outbound packets must be addressed to.
    pub remote_cid: u16,
}

/// A service and a channel id survive being asked for.
pub proof fn connection_request_round_trips(psm: u16, source_cid: u16)
    ensures
        connection_request_of(connection_request_data(psm, source_cid)) == Some((psm, source_cid)),
{
    let d = connection_request_data(psm, source_cid);
    bytes::le16_round_trips(psm);
    bytes::le16_round_trips(source_cid);
    assert(d[0] == bytes::le16(psm)[0] && d[1] == bytes::le16(psm)[1]);
    assert(d[2] == bytes::le16(source_cid)[0] && d[3] == bytes::le16(source_cid)[1]);
}

/// The two channel ids of a response, and its result, are told apart.
pub proof fn connection_response_round_trips(dest_cid: u16, source_cid: u16, result: u16)
    ensures
        connection_response_of(connection_response_data(dest_cid, source_cid, result)) == Some(
            ConnectionResponse { dest_cid, source_cid, result, status: 0 },
        ),
{
    let d = connection_response_data(dest_cid, source_cid, result);
    bytes::le16_round_trips(dest_cid);
    bytes::le16_round_trips(source_cid);
    bytes::le16_round_trips(result);
    bytes::le16_round_trips(0);
    assert(d[0] == bytes::le16(dest_cid)[0] && d[1] == bytes::le16(dest_cid)[1]);
    assert(d[2] == bytes::le16(source_cid)[0] && d[3] == bytes::le16(source_cid)[1]);
    assert(d[4] == bytes::le16(result)[0] && d[5] == bytes::le16(result)[1]);
    assert(d[6] == bytes::le16(0)[0] && d[7] == bytes::le16(0)[1]);
}

/// An acceptance names the channel that it is for.
pub proof fn an_acceptance_names_its_channel(cid: u16, options: Seq<u8>)
    ensures
        configure_response_of(configure_response_data(cid, options)) == Some((cid, 0u16)),
{
    let a = configure_response_data(cid, options);
    bytes::le16_round_trips(cid);
    bytes::le16_round_trips(0);
    assert(a[0] == bytes::le16(cid)[0] && a[1] == bytes::le16(cid)[1]);
    assert(a[4] == bytes::le16(0)[0] && a[5] == bytes::le16(0)[1]);
}

/// The options of a configuration request come back unchanged in the answer, which
/// names the remote's channel and says success.
pub proof fn configuration_options_are_echoed(request: Seq<u8>, remote_cid: u16)
    requires
        request.len() >= 4,
    ensures
        configure_request_of(request) matches Some((_, options)) && {
            let answer = configure_response_data(remote_cid, options);
            &&& configure_response_of(answer) == Some((remote_cid, 0u16))
            &&& answer.skip(6) == request.skip(4)
        },
{
    let options = request.skip(4);
    let a = configure_response_data(remote_cid, options);
    an_acceptance_names_its_channel(remote_cid, options);
    assert(a.skip(6) =~= options);
}

/// A configuration request names the channel and offers the size that it was made
/// with.
pub proof fn configure_request_round_trips(dest_cid: u16, mtu: u16)
    ensures
        configure_request_of(configure_request_data(dest_cid, mtu)) == Some(
            (dest_cid, seq![0x01u8, 0x02u8] + bytes::le16(mtu)),
        ),
{
    let d = configure_request_data(dest_cid, mtu);
    bytes::le16_round_trips(dest_cid);
    assert(d[0] == bytes::le16(dest_cid)[0] && d[1] == bytes::le16(dest_cid)[1]);
    assert(d.skip(4) =~= seq![0x01u8, 0x02u8] + bytes::le16(mtu));
}

/// How a signalling command stands on the wire: its code, its identifier, the length of its
/// data, low byte first, and the data.
pub proof fn a_signal_stands_by_its_bytes(code: u8, identifier: u8, data: Seq<u8>, more: Seq<u8>)
    requires
        data.len() <= 0xFFFF,
    ensures
        signal_frame(code, identifier, data) == seq![
            code,
            identifier,
            (data.len() % 256) as u8,
            (data.len() / 256) as u8,
        ] + data,
        signal_of(signal_frame(code, identifier, data) + more) == Some(
            SignalView { code, identifier, data },
        ),
{
    let f = signal_frame(code, identifier, data);
    assert(f =~= seq![code, identifier, (data.len() % 256) as u8, (data.len() / 256) as u8] + data);
    let p = f + more;
    assert(p[0] == code && p[1] == identifier && p[2] == f[2] && p[3] == f[3]);
    assert(bytes::u16_at(p, 2) == data.len());
    assert(p.subrange(4, 4 + data.len() as int) =~= data);
}

/// The bytes of a number, low byte first.
pub open spec fn two(x: u16) -> Seq<u8> {
    seq![(x % 256) as u8, (x / 256) as u8]
}

/// What each command says, and in what order: a request names the service and then the id
/// that the one who asks listens on; an answer names the id of the one who answers, then that
/// one, then the result and a status; a configuration names the channel, flags, and its
/// options; its answer the channel, flags, the result, and the options; and a closing both
/// ids.
pub proof fn commands_stand_by_their_fields(
    psm: u16,
    dest: u16,
    source: u16,
    result: u16,
    mtu: u16,
    options: Seq<u8>,
)
    ensures
        connection_request_data(psm, source) == two(psm) + two(source),
        connection_response_data(dest, source, result) == two(dest) + two(source) + two(result)
            + two(0),
        configure_request_data(dest, mtu) == two(dest) + two(0) + seq![0x01u8, 0x02] + two(mtu),
        configure_response_data(source, options) == two(source) + two(0) + two(0) + options,
        disconnection_request_data(dest, source) == two(dest) + two(source),
{
}

/// Whatever stands in the fields of a command is read back from them, whoever wrote it, and
/// further bytes change nothing.
pub proof fn fields_are_read_where_they_stand(
    a: u16,
    b: u16,
    c: u16,
    d: u16,
    more: Seq<u8>,
)
    ensures
        connection_request_of(two(a) + two(b) + more) == Some((a, b)),
        connection_response_of(two(a) + two(b) + two(c) + two(d) + more) == Some(
            ConnectionResponse { dest_cid: a, source_cid: b, result: c, status: d },
        ),
        configure_request_of(two(a) + two(b) + more) == Some((a, more)),
        configure_response_of(two(a) + two(b) + two(c) + more) == Some((a, c)),
        connection_request_of((two(a) + two(b)).take(3)) is None,
        connection_response_of((two(a) + two(b) + two(c) + two(d)).take(7)) is None,
        configure_request_of((two(a) + two(b)).take(3)) is None,
        configure_response_of((two(a) + two(b) + two(c)).take(5)) is None,
{
    let p = two(a) + two(b) + more;
    assert(p[0] == two(a)[0] && p[1] == two(a)[1] && p[2] == two(b)[0] && p[3] == two(b)[1]);
    assert(p.skip(4) =~= more);
    let q = two(a) + two(b) + two(c) + two(d) + more;
    assert(q[0] == two(a)[0] && q[1] == two(a)[1] && q[2] == two(b)[0] && q[3] == two(b)[1]);
    assert(q[4] == two(c)[0] && q[5] == two(c)[1] && q[6] == two(d)[0] && q[7] == two(d)[1]);
    let r = two(a) + two(b) + two(c) + more;
    assert(r[0] == two(a)[0] && r[1] == two(a)[1] && r[4] == two(c)[0] && r[5] == two(c)[1]);
}

/// The numbers that the specification of the protocol assigns.
pub proof fn the_assigned_numbers_of_signalling()
    ensures
        CID_SIGNALLING == 1,
        PSM_HID_CONTROL == 0x11,
        PSM_HID_INTERRUPT == 0x13,
        SIG_CONNECTION_REQUEST == 2,
        SIG_CONNECTION_RESPONSE == SIG_CONNECTION_REQUEST + 1,
        SIG_CONFIGURE_REQUEST == 4,
        SIG_CONFIGURE_RESPONSE == SIG_CONFIGURE_REQUEST + 1,
        SIG_DISCONNECTION_REQUEST == 6,
        SIG_DISCONNECTION_RESPONSE == SIG_DISCONNECTION_REQUEST + 1,
        FIRST_DYNAMIC_CID == 0x40,
{
}

} // verus!
