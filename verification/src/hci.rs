//! HCI packet encoding and decoding.
//!
//! Pure functions over byte strings.
use vstd::prelude::*;
use crate::bytes;
use crate::bytes::{copy_range, join16, join32, len8, push16, push_all, reverse6, six_at};
use crate::error::{Error, Result};
use crate::error;
use crate::text;
use crate::text::{push_decimal, push_hex2, push_text};

verus! {

/// An HCI opcode: a 6-bit Opcode Group Field and a 10-bit Opcode Command Field.
#[derive(Debug, Clone, Copy, PartialEq, Eq, Structural)]
pub struct Opcode(pub u16);

/// The number of the command `ocf` of the group `ogf`.
pub open spec fn opcode_number(ogf: u16, ocf: u16) -> u16 {
    ((ogf % 64) * 1024 + ocf % 1024) as u16
}

/// The numbers of the commands that the stack sends.
impl Opcode {
    /// The natural first command: every controller implements it, it takes no
    /// parameters, and it answers with a single status byte.
    pub const RESET: u16 = 0x0C03;

    /// Must be sent after a reset: the default mask leaves the LE meta event out, so
    /// a freshly reset controller scans happily and reports nothing at all.
    pub const SET_EVENT_MASK: u16 = 0x0C01;

    pub const LE_SET_EVENT_MASK: u16 = 0x2001;

    pub const READ_LOCAL_VERSION: u16 = 0x1001;

    pub const LE_SET_SCAN_PARAMETERS: u16 = 0x200B;

    pub const LE_SET_SCAN_ENABLE: u16 = 0x200C;

    /// Answers with a command status; the result arrives later as an LE connection
    /// complete sub-event.
    pub const LE_CREATE_CONNECTION: u16 = 0x200D;

    pub const LE_CREATE_CONNECTION_CANCEL: u16 = 0x200E;

    pub const DISCONNECT: u16 = 0x0406;

    /// The dongle's own address.
    pub const READ_BD_ADDR: u16 = 0x1009;

    /// Bit 5 of byte 4 of the features says that BR/EDR is not supported.
    pub const READ_LOCAL_FEATURES: u16 = 0x1003;

    /// Parameters are a 3-byte access code, a duration in 1.28 s units, and a
    /// response limit where 0 means unlimited.
    pub const INQUIRY: u16 = 0x0401;

    pub const INQUIRY_CANCEL: u16 = 0x0402;

    pub const REMOTE_NAME_REQUEST: u16 = 0x0419;

    /// `0x00` the plain result form, `0x01` adds the signal strength, `0x02` adds
    /// that and the extended payload.
    pub const WRITE_INQUIRY_MODE: u16 = 0x0C45;

    /// Page a device: open a link to an address found by inquiry.
    pub const CREATE_CONNECTION: u16 = 0x0405;

    pub const CREATE_CONNECTION_CANCEL: u16 = 0x0408;

    /// Required before any Secure Simple Pairing event will fire.
    pub const WRITE_SIMPLE_PAIRING_MODE: u16 = 0x0C56;

    pub const IO_CAPABILITY_REQUEST_REPLY: u16 = 0x042B;

    pub const USER_CONFIRMATION_REQUEST_REPLY: u16 = 0x042C;

    /// Hand back a stored link key.
    pub const LINK_KEY_REQUEST_REPLY: u16 = 0x040B;

    /// "I have no key for this device", which is what starts pairing.
    pub const LINK_KEY_REQUEST_NEGATIVE_REPLY: u16 = 0x040C;

    pub const AUTHENTICATION_REQUESTED: u16 = 0x0411;

    pub const SET_CONNECTION_ENCRYPTION: u16 = 0x0413;

    /// Whether this radio answers when someone calls it: bit 0 inquiry scan, bit 1
    /// page scan. Both are off after a reset.
    pub const READ_SCAN_ENABLE: u16 = 0x0C19;

    pub const WRITE_SCAN_ENABLE: u16 = 0x0C1A;

    /// How long a page attempt keeps trying, in 0.625 ms slots.
    pub const WRITE_PAGE_TIMEOUT: u16 = 0x0C18;

    pub const ACCEPT_CONNECTION_REQUEST: u16 = 0x0409;

    /// Starts link encryption from a key that was agreed out of band.
    pub const LE_ENABLE_ENCRYPTION: u16 = 0x2019;

    /// Build an opcode from its group and command fields.
    pub fn new(ogf: u16, ocf: u16) -> (op: Opcode)
        ensures
            op.0 == opcode_number(ogf, ocf),
    {
        Opcode((ogf % 64) * 1024 + ocf % 1024)
    }
}

/// Every command number is the one that its group and command fields give.
pub proof fn opcodes_are_their_fields()
    ensures
        Opcode::RESET == opcode_number(0x03, 0x0003),
        Opcode::SET_EVENT_MASK == opcode_number(0x03, 0x0001),
        Opcode::LE_SET_EVENT_MASK == opcode_number(0x08, 0x0001),
        Opcode::READ_LOCAL_VERSION == opcode_number(0x04, 0x0001),
        Opcode::LE_SET_SCAN_PARAMETERS == opcode_number(0x08, 0x000B),
        Opcode::LE_SET_SCAN_ENABLE == opcode_number(0x08, 0x000C),
        Opcode::LE_CREATE_CONNECTION == opcode_number(0x08, 0x000D),
        Opcode::LE_CREATE_CONNECTION_CANCEL == opcode_number(0x08, 0x000E),
        Opcode::DISCONNECT == opcode_number(0x01, 0x0006),
        Opcode::READ_BD_ADDR == opcode_number(0x04, 0x0009),
        Opcode::READ_LOCAL_FEATURES == opcode_number(0x04, 0x0003),
        Opcode::INQUIRY == opcode_number(0x01, 0x0001),
        Opcode::INQUIRY_CANCEL == opcode_number(0x01, 0x0002),
        Opcode::REMOTE_NAME_REQUEST == opcode_number(0x01, 0x0019),
        Opcode::WRITE_INQUIRY_MODE == opcode_number(0x03, 0x0045),
        Opcode::CREATE_CONNECTION == opcode_number(0x01, 0x0005),
        Opcode::CREATE_CONNECTION_CANCEL == opcode_number(0x01, 0x0008),
        Opcode::WRITE_SIMPLE_PAIRING_MODE == opcode_number(0x03, 0x0056),
        Opcode::IO_CAPABILITY_REQUEST_REPLY == opcode_number(0x01, 0x002B),
        Opcode::USER_CONFIRMATION_REQUEST_REPLY == opcode_number(0x01, 0x002C),
        Opcode::LINK_KEY_REQUEST_REPLY == opcode_number(0x01, 0x000B),
        Opcode::LINK_KEY_REQUEST_NEGATIVE_REPLY == opcode_number(0x01, 0x000C),
        Opcode::AUTHENTICATION_REQUESTED == opcode_number(0x01, 0x0011),
        Opcode::SET_CONNECTION_ENCRYPTION == opcode_number(0x01, 0x0013),
        Opcode::READ_SCAN_ENABLE == opcode_number(0x03, 0x0019),
        Opcode::WRITE_SCAN_ENABLE == opcode_number(0x03, 0x001A),
        Opcode::WRITE_PAGE_TIMEOUT == opcode_number(0x03, 0x0018),
        Opcode::ACCEPT_CONNECTION_REQUEST == opcode_number(0x01, 0x0009),
        Opcode::LE_ENABLE_ENCRYPTION == opcode_number(0x08, 0x0019),
{
}

/// A command packet: opcode, length, parameters. There is no leading packet-type
/// byte: over USB the endpoint identifies the type.
pub open spec fn command_packet(opcode: u16, params: Seq<u8>) -> Seq<u8> {
    bytes::le16(opcode) + seq![bytes::low8(params.len())] + params
}

/// Encode an HCI command packet.
pub fn encode_command(opcode: Opcode, params: &[u8]) -> (out: Vec<u8>)
    ensures
        out@ == command_packet(opcode.0, params@),
{
    let mut out: Vec<u8> = Vec::new();
    push16(&mut out, opcode.0);
    out.push(len8(params.len()));
    push_all(&mut out, params);
    assert(out@ =~= command_packet(opcode.0, params@));
    out
}

/// A command packet names its command and carries its parameters whole; where they
/// fit the length byte it says how many there are. Two packets are the same only if
/// their commands and parameters are.
pub proof fn command_packet_is_faithful(op1: u16, p1: Seq<u8>, op2: u16, p2: Seq<u8>)
    ensures
        bytes::u16_at(command_packet(op1, p1), 0) == op1,
        command_packet(op1, p1).skip(3) == p1,
        p1.len() < 256 ==> command_packet(op1, p1)[2] == p1.len(),
        command_packet(op1, p1) == command_packet(op2, p2) ==> op1 == op2 && p1 == p2,
{
    bytes::le16_round_trips(op1);
    bytes::le16_round_trips(op2);
    assert(command_packet(op1, p1).skip(3) =~= p1);
    assert(command_packet(op2, p2).skip(3) =~= p2);
    assert(command_packet(op1, p1)[0] == bytes::le16(op1)[0]);
    assert(command_packet(op1, p1)[1] == bytes::le16(op1)[1]);
    assert(command_packet(op2, p2)[0] == bytes::le16(op2)[0]);
    assert(command_packet(op2, p2)[1] == bytes::le16(op2)[1]);
}

/// A `Command Complete` event.
#[derive(Debug, PartialEq, Eq)]
pub struct CommandComplete {
    /// Command slots the controller can accept now; used for flow control.
    pub num_hci_command_packets: u8,
    /// The command this completes.
    pub opcode: Opcode,
    /// Return parameters. Byte 0 is the status for most commands: 0 = success.
    pub params: Vec<u8>,
}

/// A [`CommandComplete`] with its parameters as a sequence.
#[verifier::ext_equal]
pub struct CommandCompleteView {
    pub num_hci_command_packets: u8,
    pub opcode: Opcode,
    pub params: Seq<u8>,
}

impl View for CommandComplete {
    type V = CommandCompleteView;

    open spec fn view(&self) -> CommandCompleteView {
        CommandCompleteView {
            num_hci_command_packets: self.num_hci_command_packets,
            opcode: self.opcode,
            params: self.params@,
        }
    }
}

/// The first byte of a command's return parameters, where there is one.
pub open spec fn status_of(params: Seq<u8>) -> Option<u8> {
    if params.len() == 0 {
        None
    } else {
        Some(params[0])
    }
}

impl CommandComplete {
    /// Status byte, when the command has one.
    pub fn status(&self) -> (s: Option<u8>)
        ensures
            s == status_of(self.params@),
    {
        if self.params.len() == 0 {
            None
        } else {
            Some(self.params[0])
        }
    }

    /// Whether the command succeeded (status 0x00).
    pub fn succeeded(&self) -> (r: bool)
        ensures
            r == (status_of(self.params@) == Some(0u8)),
    {
        self.params.len() > 0 && self.params[0] == 0
    }
}

/// One device found by a BR/EDR inquiry.
///
/// The three inquiry-result events differ only in what they append, so they decode
/// into one type: the signal strength is `None` where the controller sent the
/// shorter form.
#[derive(Debug, PartialEq, Eq)]
pub struct InquiryResult {
    pub address: [u8; 6],
    /// Class of Device: 3 bytes saying broadly what the device is.
    pub class_of_device: [u8; 3],
    /// Needed later to page the device.
    pub page_scan_repetition_mode: u8,
    /// Also needed to page it.
    pub clock_offset: u16,
    pub rssi: Option<i8>,
}

/// An [`InquiryResult`] with its arrays as sequences.
#[verifier::ext_equal]
pub struct InquiryResultView {
    pub address: Seq<u8>,
    pub class_of_device: Seq<u8>,
    pub page_scan_repetition_mode: u8,
    pub clock_offset: u16,
    pub rssi: Option<i8>,
}

impl View for InquiryResult {
    type V = InquiryResultView;

    open spec fn view(&self) -> InquiryResultView {
        InquiryResultView {
            address: self.address@,
            class_of_device: self.class_of_device@,
            page_scan_repetition_mode: self.page_scan_repetition_mode,
            clock_offset: self.clock_offset,
            rssi: self.rssi,
        }
    }
}

/// The major device class that a Class of Device states.
pub open spec fn major_class_of(class: Seq<u8>) -> u8 {
    class[1] % 32
}

/// The minor device class that a Class of Device states, for a peripheral.
pub open spec fn minor_class_of(class: Seq<u8>) -> u8 {
    (class[0] / 4) % 16
}

/// Whether a Class of Device is a peripheral's that calls itself a joystick or a
/// gamepad.
pub open spec fn gamepad_class(class: Seq<u8>) -> bool {
    major_class_of(class) == 0x05 && (minor_class_of(class) == 1 || minor_class_of(class) == 2)
}

impl InquiryResult {
    /// Major device class, from the Class of Device bits.
    pub fn major_class(&self) -> (c: u8)
        ensures
            c == major_class_of(self.class_of_device@),
    {
        self.class_of_device[1] % 32
    }

    /// Whether the Class of Device marks this as a peripheral with the
    /// gamepad/joystick bits set.
    ///
    /// Advisory only: it is a hint the device broadcasts about itself. Good enough
    /// to sort a device list; not good enough to gate a connection on.
    pub fn looks_like_a_gamepad(&self) -> (r: bool)
        ensures
            r == gamepad_class(self.class_of_device@),
    {
        let minor: u8 = (self.class_of_device[0] / 4) % 16;
        self.major_class() == 0x05 && (minor == 1 || minor == 2)
    }
}

/// A single advertising report from an `LE Advertising Report` sub-event.
#[derive(Debug, PartialEq, Eq)]
pub struct AdvReport {
    /// `0x00` connectable undirected, `0x04` scan response, and so on.
    pub event_type: u8,
    /// `0x00` public, `0x01` random.
    pub address_type: u8,
    /// The address in display order; the wire carries it reversed.
    pub address: [u8; 6],
    /// Raw AD structures, still in `[len][type][data..]` form.
    pub data: Vec<u8>,
    pub rssi: i8,
}

/// An [`AdvReport`] with its arrays as sequences.
#[verifier::ext_equal]
pub struct AdvReportView {
    pub event_type: u8,
    pub address_type: u8,
    pub address: Seq<u8>,
    pub data: Seq<u8>,
    pub rssi: i8,
}

impl View for AdvReport {
    type V = AdvReportView;

    open spec fn view(&self) -> AdvReportView {
        AdvReportView {
            event_type: self.event_type,
            address_type: self.address_type,
            address: self.address@,
            data: self.data@,
            rssi: self.rssi,
        }
    }
}

/// One AD structure: its type and its data.
#[verifier::ext_equal]
pub struct AdStructure {
    pub kind: u8,
    pub data: Seq<u8>,
}

/// The AD structures in `data`: each is a length, a type and one byte less than the
/// length of data. A zero length, or one that points past the end, ends the list.
pub open spec fn ad_structures(data: Seq<u8>) -> Seq<AdStructure>
    decreases data.len(),
{
    if data.len() == 0 || data[0] == 0 || 1 + data[0] > data.len() {
        seq![]
    } else {
        seq![AdStructure { kind: data[1], data: data.subrange(2, 1 + data[0]) }] + ad_structures(
            data.skip(1 + data[0]),
        )
    }
}

/// The data of the first structure of type `kind`, where there is one.
pub open spec fn first_of_kind(all: Seq<AdStructure>, kind: u8) -> Option<Seq<u8>>
    decreases all.len(),
{
    if all.len() == 0 {
        None
    } else if all[0].kind == kind {
        Some(all[0].data)
    } else {
        first_of_kind(all.skip(1), kind)
    }
}

/// The manufacturer-specific data among `data`, its leading company id included.
pub open spec fn manufacturer_data_of(data: Seq<u8>) -> Option<Seq<u8>> {
    first_of_kind(ad_structures(data), 0xFF)
}

impl AdvReport {
    /// Extract the manufacturer-specific data (AD type `0xFF`), if present.
    ///
    /// This is the only way to recognise a Joy-Con 2: it advertises no service and no
    /// name, just a company id and a product id. Returned including the leading
    /// 2-byte company id.
    pub fn manufacturer_data(&self) -> (r: Option<&[u8]>)
        ensures
            match r {
                Some(s) => manufacturer_data_of(self.data@) == Some(s@),
                None => manufacturer_data_of(self.data@) is None,
            },
    {
        let data: &[u8] = self.data.as_slice();
        let mut i: usize = 0;
        assert(data@.skip(0) =~= data@);
        while i < data.len()
            invariant
                i <= data@.len(),
                data@ == self.data@,
                manufacturer_data_of(self.data@) == manufacturer_data_of(data@.skip(i as int)),
            ensures
                manufacturer_data_of(self.data@) is None,
            decreases data@.len() - i,
        {
            let ghost rest = data@.skip(i as int);
            let len: usize = data[i] as usize;
            if len == 0 || len >= data.len() - i {
                assert(ad_structures(rest) =~= seq![]);
                break;
            }
            let ghost all = ad_structures(rest);
            assert(all[0] == (AdStructure { kind: rest[1], data: rest.subrange(2, 1 + rest[0]) }));
            assert(all.skip(1) =~= ad_structures(rest.skip(1 + rest[0])));
            if data[i + 1] == 0xFF {
                let s = vstd::slice::slice_subrange(data, i + 2, i + 1 + len);
                assert(s@ =~= rest.subrange(2, 1 + rest[0]));
                return Some(s);
            }
            assert(rest.skip(1 + rest[0]) =~= data@.skip(i + 1 + len));
            i = i + 1 + len;
        }
        None
    }
}

/// A decoded HCI event.
#[derive(Debug, PartialEq, Eq)]
pub enum Event {
    CommandComplete(CommandComplete),
    /// A command accepted but not yet finished.
    CommandStatus { status: u8, opcode: Opcode },
    /// One device seen during an LE scan.
    LeAdvertisingReport(AdvReport),
    /// The result of `LE Create Connection`.
    LeConnectionComplete {
        status: u8,
        conn_handle: u16,
        /// Connection interval in 1.25 ms units.
        interval: u16,
        /// Supervision timeout in 10 ms units.
        supervision_timeout: u16,
    },
    /// The link went away. `0x13` remote terminated, `0x16` local host, `0x08`
    /// supervision timeout.
    DisconnectionComplete { conn_handle: u16, reason: u8 },
    /// Link encryption turned on or off.
    EncryptionChange { status: u8, conn_handle: u16, enabled: u8 },
    /// Devices seen during a BR/EDR inquiry. A single event carries a count and that
    /// many devices, so this is a list rather than one result.
    InquiryResults(Vec<InquiryResult>),
    /// The inquiry ran to completion (or was cancelled).
    InquiryComplete { status: u8 },
    /// A remote device answered with its friendly name.
    RemoteNameComplete { status: u8, address: [u8; 6], name: String },
    /// A BR/EDR link was established (or failed to be).
    ConnectionComplete { status: u8, conn_handle: u16, address: [u8; 6] },
    /// A remote device is calling us: the reconnect path for an already-bonded
    /// controller.
    ConnectionRequest { address: [u8; 6], class_of_device: [u8; 3], link_type: u8 },
    /// The controller wants a stored link key for this device.
    LinkKeyRequest { address: [u8; 6] },
    /// Pairing produced a link key: this is the thing worth persisting.
    LinkKeyNotification { address: [u8; 6], key: [u8; 16], key_type: u8 },
    /// The remote is asking what this host can display and input.
    IoCapabilityRequest { address: [u8; 6] },
    /// "Do these numbers match?"
    UserConfirmationRequest { address: [u8; 6], numeric: u32 },
    /// Secure Simple Pairing finished.
    SimplePairingComplete { status: u8, address: [u8; 6] },
    /// Authentication finished on an established link.
    AuthenticationComplete { status: u8, conn_handle: u16 },
    /// Anything not decoded, kept whole so nothing is silently discarded.
    Other { code: u8, params: Vec<u8> },
}

/// An [`Event`] with its arrays as sequences and its text as characters.
#[verifier::ext_equal]
pub enum EventView {
    CommandComplete(CommandCompleteView),
    CommandStatus { status: u8, opcode: Opcode },
    LeAdvertisingReport(AdvReportView),
    LeConnectionComplete { status: u8, conn_handle: u16, interval: u16, supervision_timeout: u16 },
    DisconnectionComplete { conn_handle: u16, reason: u8 },
    EncryptionChange { status: u8, conn_handle: u16, enabled: u8 },
    InquiryResults(Seq<InquiryResultView>),
    InquiryComplete { status: u8 },
    RemoteNameComplete { status: u8, address: Seq<u8>, name: Seq<char> },
    ConnectionComplete { status: u8, conn_handle: u16, address: Seq<u8> },
    ConnectionRequest { address: Seq<u8>, class_of_device: Seq<u8>, link_type: u8 },
    LinkKeyRequest { address: Seq<u8> },
    LinkKeyNotification { address: Seq<u8>, key: Seq<u8>, key_type: u8 },
    IoCapabilityRequest { address: Seq<u8> },
    UserConfirmationRequest { address: Seq<u8>, numeric: u32 },
    SimplePairingComplete { status: u8, address: Seq<u8> },
    AuthenticationComplete { status: u8, conn_handle: u16 },
    Other { code: u8, params: Seq<u8> },
}

/// The inquiry results of `all`, each by its view.
pub open spec fn inquiry_views(all: Seq<InquiryResult>) -> Seq<InquiryResultView> {
    all.map_values(|r: InquiryResult| r@)
}

impl View for Event {
    type V = EventView;

    open spec fn view(&self) -> EventView {
        match self {
            Event::CommandComplete(c) => EventView::CommandComplete(c@),
            Event::CommandStatus { status, opcode } => EventView::CommandStatus {
                status: *status,
                opcode: *opcode,
            },
            Event::LeAdvertisingReport(r) => EventView::LeAdvertisingReport(r@),
            Event::LeConnectionComplete { status, conn_handle, interval, supervision_timeout } => {
                EventView::LeConnectionComplete {
                    status: *status,
                    conn_handle: *conn_handle,
                    interval: *interval,
                    supervision_timeout: *supervision_timeout,
                }
            },
            Event::DisconnectionComplete { conn_handle, reason } => {
                EventView::DisconnectionComplete { conn_handle: *conn_handle, reason: *reason }
            },
            Event::EncryptionChange { status, conn_handle, enabled } => {
                EventView::EncryptionChange {
                    status: *status,
                    conn_handle: *conn_handle,
                    enabled: *enabled,
                }
            },
            Event::InquiryResults(all) => EventView::InquiryResults(inquiry_views(all@)),
            Event::InquiryComplete { status } => EventView::InquiryComplete { status: *status },
            Event::RemoteNameComplete { status, address, name } => EventView::RemoteNameComplete {
                status: *status,
                address: address@,
                name: name@,
            },
            Event::ConnectionComplete { status, conn_handle, address } => {
                EventView::ConnectionComplete {
                    status: *status,
                    conn_handle: *conn_handle,
                    address: address@,
                }
            },
            Event::ConnectionRequest { address, class_of_device, link_type } => {
                EventView::ConnectionRequest {
                    address: address@,
                    class_of_device: class_of_device@,
                    link_type: *link_type,
                }
            },
            Event::LinkKeyRequest { address } => EventView::LinkKeyRequest { address: address@ },
            Event::LinkKeyNotification { address, key, key_type } => {
                EventView::LinkKeyNotification {
                    address: address@,
                    key: key@,
                    key_type: *key_type,
                }
            },
            Event::IoCapabilityRequest { address } => EventView::IoCapabilityRequest {
                address: address@,
            },
            Event::UserConfirmationRequest { address, numeric } => {
                EventView::UserConfirmationRequest { address: address@, numeric: *numeric }
            },
            Event::SimplePairingComplete { status, address } => EventView::SimplePairingComplete {
                status: *status,
                address: address@,
            },
            Event::AuthenticationComplete { status, conn_handle } => {
                EventView::AuthenticationComplete { status: *status, conn_handle: *conn_handle }
            },
            Event::Other { code, params } => EventView::Other { code: *code, params: params@ },
        }
    }
}

impl Clone for CommandComplete {
    fn clone(&self) -> (c: CommandComplete)
        ensures
            c@ == self@,
    {
        CommandComplete {
            num_hci_command_packets: self.num_hci_command_packets,
            opcode: self.opcode,
            params: vstd::slice::slice_to_vec(self.params.as_slice()),
        }
    }
}

impl Clone for InquiryResult {
    fn clone(&self) -> (r: InquiryResult)
        ensures
            r == *self,
    {
        InquiryResult {
            address: self.address,
            class_of_device: self.class_of_device,
            page_scan_repetition_mode: self.page_scan_repetition_mode,
            clock_offset: self.clock_offset,
            rssi: self.rssi,
        }
    }
}

impl Clone for AdvReport {
    fn clone(&self) -> (r: AdvReport)
        ensures
            r@ == self@,
    {
        AdvReport {
            event_type: self.event_type,
            address_type: self.address_type,
            address: self.address,
            data: vstd::slice::slice_to_vec(self.data.as_slice()),
            rssi: self.rssi,
        }
    }
}

/// A copy of a list of inquiry results.
fn copy_results(all: &Vec<InquiryResult>) -> (v: Vec<InquiryResult>)
    ensures
        v@ == all@,
{
    let mut v: Vec<InquiryResult> = Vec::new();
    let mut i: usize = 0;
    while i < all.len()
        invariant
            i <= all@.len(),
            v@ == all@.take(i as int),
        decreases all@.len() - i,
    {
        v.push(all[i].clone());
        i += 1;
        assert(v@ =~= all@.take(i as int));
    }
    assert(v@ =~= all@);
    v
}

impl Clone for Event {
    fn clone(&self) -> (e: Event)
        ensures
            e@ == self@,
    {
        match self {
            Event::CommandComplete(c) => Event::CommandComplete(c.clone()),
            Event::CommandStatus { status, opcode } => Event::CommandStatus {
                status: *status,
                opcode: *opcode,
            },
            Event::LeAdvertisingReport(r) => Event::LeAdvertisingReport(r.clone()),
            Event::LeConnectionComplete { status, conn_handle, interval, supervision_timeout } => {
                Event::LeConnectionComplete {
                    status: *status,
                    conn_handle: *conn_handle,
                    interval: *interval,
                    supervision_timeout: *supervision_timeout,
                }
            },
            Event::DisconnectionComplete { conn_handle, reason } => {
                Event::DisconnectionComplete { conn_handle: *conn_handle, reason: *reason }
            },
            Event::EncryptionChange { status, conn_handle, enabled } => Event::EncryptionChange {
                status: *status,
                conn_handle: *conn_handle,
                enabled: *enabled,
            },
            Event::InquiryResults(all) => Event::InquiryResults(copy_results(all)),
            Event::InquiryComplete { status } => Event::InquiryComplete { status: *status },
            Event::RemoteNameComplete { status, address, name } => Event::RemoteNameComplete {
                status: *status,
                address: *address,
                name: name.clone(),
            },
            Event::ConnectionComplete { status, conn_handle, address } => {
                Event::ConnectionComplete {
                    status: *status,
                    conn_handle: *conn_handle,
                    address: *address,
                }
            },
            Event::ConnectionRequest { address, class_of_device, link_type } => {
                Event::ConnectionRequest {
                    address: *address,
                    class_of_device: *class_of_device,
                    link_type: *link_type,
                }
            },
            Event::LinkKeyRequest { address } => Event::LinkKeyRequest { address: *address },
            Event::LinkKeyNotification { address, key, key_type } => Event::LinkKeyNotification {
                address: *address,
                key: *key,
                key_type: *key_type,
            },
            Event::IoCapabilityRequest { address } => Event::IoCapabilityRequest {
                address: *address,
            },
            Event::UserConfirmationRequest { address, numeric } => {
                Event::UserConfirmationRequest { address: *address, numeric: *numeric }
            },
            Event::SimplePairingComplete { status, address } => Event::SimplePairingComplete {
                status: *status,
                address: *address,
            },
            Event::AuthenticationComplete { status, conn_handle } => {
                Event::AuthenticationComplete { status: *status, conn_handle: *conn_handle }
            },
            Event::Other { code, params } => Event::Other {
                code: *code,
                params: vstd::slice::slice_to_vec(params.as_slice()),
            },
        }
    }
}

pub const EVT_COMMAND_COMPLETE: u8 = 0x0E;

pub const EVT_COMMAND_STATUS: u8 = 0x0F;

pub const EVT_DISCONNECTION_COMPLETE: u8 = 0x05;

pub const EVT_ENCRYPTION_CHANGE: u8 = 0x08;

pub const EVT_LE_META: u8 = 0x3E;

pub const SUBEVT_LE_CONNECTION_COMPLETE: u8 = 0x01;

pub const SUBEVT_LE_ADVERTISING_REPORT: u8 = 0x02;

pub const EVT_INQUIRY_COMPLETE: u8 = 0x01;

/// `Inquiry Result`: the plain form, no signal strength.
pub const EVT_INQUIRY_RESULT: u8 = 0x02;

pub const EVT_CONNECTION_COMPLETE: u8 = 0x03;

/// `Connection Request`: an incoming link.
pub const EVT_CONNECTION_REQUEST: u8 = 0x04;

pub const EVT_AUTHENTICATION_COMPLETE: u8 = 0x06;

pub const EVT_REMOTE_NAME_COMPLETE: u8 = 0x07;

pub const EVT_LINK_KEY_REQUEST: u8 = 0x17;

pub const EVT_LINK_KEY_NOTIFICATION: u8 = 0x18;

/// `Inquiry Result with RSSI`.
pub const EVT_INQUIRY_RESULT_RSSI: u8 = 0x22;

/// `Extended Inquiry Result`: one device per event, with more data appended.
pub const EVT_EXTENDED_INQUIRY_RESULT: u8 = 0x2F;

pub const EVT_IO_CAPABILITY_REQUEST: u8 = 0x31;

pub const EVT_USER_CONFIRMATION_REQUEST: u8 = 0x33;

pub const EVT_SIMPLE_PAIRING_COMPLETE: u8 = 0x36;

/// A connection handle: the low twelve bits of the value at `i`.
pub open spec fn handle_at(p: Seq<u8>, i: int) -> u16 {
    bytes::u16_at(p, i) % 0x1000
}

/// Read a connection handle out of an event parameter block.
fn read_handle(p: &[u8], i: usize) -> (h: u16)
    requires
        i + 2 <= p@.len(),
    ensures
        h == handle_at(p@, i as int),
{
    join16(p[i], p[i + 1]) % 0x1000
}

/// Read a BD_ADDR, in wire order, out of an event parameter block.
pub fn addr_at(params: &[u8], off: usize) -> (a: [u8; 6])
    requires
        off + 6 <= params@.len(),
    ensures
        a@ == params@.subrange(off as int, off + 6),
{
    six_at(params, off)
}

/// Whether the parameters of an inquiry-result event hold as many devices as their
/// first byte claims: fourteen bytes for each.
pub open spec fn inquiry_block_complete(params: Seq<u8>) -> bool {
    params.len() > 0 && params.len() >= 1 + 14 * params[0]
}

/// Device `i` of an inquiry-result event. The fields are stored by column: every
/// address, then every repetition mode, then the reserved bytes (two for each device
/// in the plain form, else one), every class, every clock offset, and, but for the
/// plain form, every signal strength.
pub open spec fn inquiry_device(code: u8, params: Seq<u8>, i: int) -> InquiryResultView {
    let n = params[0] as int;
    let plain = code == EVT_INQUIRY_RESULT;
    let modes = 1 + 6 * n;
    let classes = modes + n + (if plain { 2 * n } else { n });
    let clocks = classes + 3 * n;
    let strengths = clocks + 2 * n;
    InquiryResultView {
        address: params.subrange(1 + 6 * i, 1 + 6 * i + 6),
        class_of_device: params.subrange(classes + 3 * i, classes + 3 * i + 3),
        page_scan_repetition_mode: params[modes + i],
        clock_offset: bytes::u16_at(params, clocks + 2 * i),
        rssi: if plain {
            None
        } else {
            Some(params[strengths + i] as i8)
        },
    }
}

/// The devices of an inquiry-result event: all that it claims, or none where some
/// did not arrive.
pub open spec fn inquiry_devices(code: u8, params: Seq<u8>) -> Seq<InquiryResultView> {
    if inquiry_block_complete(params) {
        Seq::new(params[0] as nat, |i: int| inquiry_device(code, params, i))
    } else {
        seq![]
    }
}

/// Decode the repeated body of an inquiry-result event.
///
/// Reading the columns as a row per device is the obvious mistake and yields
/// addresses spliced together from different devices.
pub fn parse_inquiry_results(code: u8, params: &[u8]) -> (out: Vec<InquiryResult>)
    ensures
        inquiry_views(out@) == inquiry_devices(code, params@),
{
    let mut out: Vec<InquiryResult> = Vec::new();
    assert(inquiry_views(out@) =~= seq![]);
    if params.len() == 0 {
        return out;
    }
    let n: usize = params[0] as usize;
    if params.len() < 1 + 14 * n {
        return out;
    }
    let plain: bool = code == EVT_INQUIRY_RESULT;
    let modes: usize = 1 + 6 * n;
    let classes: usize = modes + n + (if plain {
        2 * n
    } else {
        n
    });
    let clocks: usize = classes + 3 * n;
    let strengths: usize = clocks + 2 * n;
    let mut i: usize = 0;
    while i < n
        invariant
            i <= n <= 255,
            n == params@[0],
            params@.len() >= 1 + 14 * n,
            plain == (code == EVT_INQUIRY_RESULT),
            modes == 1 + 6 * n,
            classes == modes + n + (if plain {
                2 * n
            } else {
                n as int
            }),
            clocks == classes + 3 * n,
            strengths == clocks + 2 * n,
            inquiry_views(out@) == Seq::new(
                i as nat,
                |j: int| inquiry_device(code, params@, j),
            ),
        decreases n - i,
    {
        let class_of_device: [u8; 3] = [
            params[classes + 3 * i],
            params[classes + 3 * i + 1],
            params[classes + 3 * i + 2],
        ];
        let r = InquiryResult {
            address: addr_at(params, 1 + 6 * i),
            class_of_device,
            page_scan_repetition_mode: params[modes + i],
            clock_offset: join16(params[clocks + 2 * i], params[clocks + 2 * i + 1]),
            rssi: if plain {
                None
            } else {
                Some(params[strengths + i] as i8)
            },
        };
        assert(r@ =~= inquiry_device(code, params@, i as int));
        let ghost before = inquiry_views(out@);
        out.push(r);
        assert(inquiry_views(out@) =~= before.push(r@));
        i += 1;
        assert(inquiry_views(out@) =~= Seq::new(
            i as nat,
            |j: int| inquiry_device(code, params@, j),
        ));
    }
    assert(inquiry_views(out@) =~= inquiry_devices(code, params@));
    out
}

/// The first report in the body of an `LE Advertising Report` sub-event:
/// `[count][event type][address type][address 6][data length][data..][rssi]`.
pub open spec fn adv_report_of(body: Seq<u8>) -> Option<AdvReportView> {
    if body.len() < 11 || body.len() < 11 + body[9] {
        None
    } else {
        Some(
            AdvReportView {
                event_type: body[1],
                address_type: body[2],
                address: bytes::reversed(body.subrange(3, 9)),
                data: body.subrange(10, 10 + body[9]),
                rssi: body[10 + body[9]] as i8,
            },
        )
    }
}

/// Decode the first report in an `LE Advertising Report` sub-event body.
///
/// Only the first report is decoded: controllers advertise one at a time, and
/// mis-walking a multi-report packet would fabricate addresses.
pub fn parse_adv_report(body: &[u8]) -> (r: Option<AdvReport>)
    ensures
        match r {
            Some(a) => adv_report_of(body@) == Some(a@),
            None => adv_report_of(body@) is None,
        },
{
    if body.len() < 11 {
        return None;
    }
    let data_len: usize = body[9] as usize;
    if body.len() < 11 + data_len {
        return None;
    }
    let a = AdvReport {
        event_type: body[1],
        address_type: body[2],
        address: reverse6(six_at(body, 3)),
        data: copy_range(body, 10, 10 + data_len),
        rssi: body[10 + data_len] as i8,
    };
    assert(Some(a@) == adv_report_of(body@));
    Some(a)
}

/// Bytes as text, with what is not UTF-8 among them replaced.
pub uninterp spec fn lossy_text(raw: Seq<u8>) -> Seq<char>;

/// `String::from_utf8_lossy` decodes UTF-8, with a replacement character for each
/// part that is not valid. What it returns depends on the bytes alone; valid UTF-8
/// comes back as the text that it encodes.
#[verifier::external_body]
fn decode_lossy(raw: &[u8]) -> (s: String)
    ensures
        s@ == lossy_text(raw@),
        vstd::utf8::valid_utf8(raw@) ==> s@ == vstd::utf8::decode_utf8(raw@),
{
    String::from_utf8_lossy(raw).into_owned()
}

/// Where the first zero byte of `s` is, or its length where there is none.
pub open spec fn nul_index(s: Seq<u8>) -> nat
    decreases s.len(),
{
    if s.len() == 0 || s[0] == 0 {
        0
    } else {
        1 + nul_index(s.skip(1))
    }
}

/// The bytes of `s` before the first zero byte.
pub open spec fn before_nul(s: Seq<u8>) -> Seq<u8> {
    s.take(nul_index(s) as int)
}

/// The first zero of a string is a zero, and nothing before it is.
pub proof fn nul_index_is_first(s: Seq<u8>)
    ensures
        nul_index(s) <= s.len(),
        nul_index(s) < s.len() ==> s[nul_index(s) as int] == 0,
        forall|j: int| 0 <= j < nul_index(s) ==> s[j] != 0,
    decreases s.len(),
{
    if s.len() > 0 && s[0] != 0 {
        nul_index_is_first(s.skip(1));
        assert forall|j: int| 0 <= j < nul_index(s) implies s[j] != 0 by {
            if j > 0 {
                assert(s[j] == s.skip(1)[j - 1]);
            }
        }
    }
}

/// The part of a NUL-padded field before its padding.
pub fn trim_at_nul(s: &[u8]) -> (r: &[u8])
    ensures
        r@ == before_nul(s@),
{
    let mut i: usize = 0;
    while i < s.len() && s[i] != 0
        invariant
            i <= s@.len(),
            forall|j: int| 0 <= j < i ==> s@[j] != 0,
        decreases s@.len() - i,
    {
        i += 1;
    }
    proof {
        nul_index_is_first(s@);
        let k = nul_index(s@) as int;
        if k < i {
            assert(s@[k] != 0);
        } else if i < k {
            assert(s@[i as int] != 0);
        }
    }
    assert(s@.take(i as int) =~= s@.subrange(0, i as int));
    vstd::slice::slice_subrange(s, 0, i)
}

/// The answer of a device that told its name, for a name that was read as `name`.
pub open spec fn named(p: Seq<u8>, name: Seq<char>) -> EventView {
    EventView::RemoteNameComplete { status: p[0], address: p.subrange(1, 7), name }
}

/// Assemble the answer of a device that told its name.
pub fn remote_name_complete(params: &[u8], name: String) -> (e: Event)
    requires
        params@.len() >= 7,
    ensures
        e@ == named(params@, name@),
{
    Event::RemoteNameComplete { status: params[0], address: addr_at(params, 1), name }
}

/// What the parameters `p` of an event `code` say. An event that is not known, or
/// that is shorter than its kind has to be, is kept as it is.
pub open spec fn decode_params(code: u8, p: Seq<u8>) -> EventView {
    if code == EVT_COMMAND_COMPLETE && p.len() >= 3 {
        EventView::CommandComplete(
            CommandCompleteView {
                num_hci_command_packets: p[0],
                opcode: Opcode(bytes::u16_at(p, 1)),
                params: p.skip(3),
            },
        )
    } else if code == EVT_COMMAND_STATUS && p.len() >= 4 {
        EventView::CommandStatus { status: p[0], opcode: Opcode(bytes::u16_at(p, 2)) }
    } else if code == EVT_INQUIRY_COMPLETE && p.len() >= 1 {
        EventView::InquiryComplete { status: p[0] }
    } else if code == EVT_REMOTE_NAME_COMPLETE && p.len() >= 7 {
        named(p, lossy_text(before_nul(p.skip(7))))
    } else if code == EVT_INQUIRY_RESULT || code == EVT_INQUIRY_RESULT_RSSI || code
        == EVT_EXTENDED_INQUIRY_RESULT {
        EventView::InquiryResults(inquiry_devices(code, p))
    } else if code == EVT_CONNECTION_COMPLETE && p.len() >= 9 {
        EventView::ConnectionComplete {
            status: p[0],
            conn_handle: handle_at(p, 1),
            address: p.subrange(3, 9),
        }
    } else if code == EVT_CONNECTION_REQUEST && p.len() >= 10 {
        EventView::ConnectionRequest {
            address: p.subrange(0, 6),
            class_of_device: p.subrange(6, 9),
            link_type: p[9],
        }
    } else if code == EVT_AUTHENTICATION_COMPLETE && p.len() >= 3 {
        EventView::AuthenticationComplete { status: p[0], conn_handle: handle_at(p, 1) }
    } else if code == EVT_LINK_KEY_REQUEST && p.len() >= 6 {
        EventView::LinkKeyRequest { address: p.subrange(0, 6) }
    } else if code == EVT_LINK_KEY_NOTIFICATION && p.len() >= 23 {
        EventView::LinkKeyNotification {
            address: p.subrange(0, 6),
            key: p.subrange(6, 22),
            key_type: p[22],
        }
    } else if code == EVT_IO_CAPABILITY_REQUEST && p.len() >= 6 {
        EventView::IoCapabilityRequest { address: p.subrange(0, 6) }
    } else if code == EVT_USER_CONFIRMATION_REQUEST && p.len() >= 10 {
        EventView::UserConfirmationRequest {
            address: p.subrange(0, 6),
            numeric: bytes::u32_at(p, 6),
        }
    } else if code == EVT_SIMPLE_PAIRING_COMPLETE && p.len() >= 7 {
        EventView::SimplePairingComplete { status: p[0], address: p.subrange(1, 7) }
    } else if code == EVT_DISCONNECTION_COMPLETE && p.len() >= 4 {
        EventView::DisconnectionComplete { conn_handle: handle_at(p, 1), reason: p[3] }
    } else if code == EVT_ENCRYPTION_CHANGE && p.len() >= 4 {
        EventView::EncryptionChange {
            status: p[0],
            conn_handle: handle_at(p, 1),
            enabled: p[3],
        }
    } else if code == EVT_LE_META && p.len() >= 19 && p[0] == SUBEVT_LE_CONNECTION_COMPLETE {
        EventView::LeConnectionComplete {
            status: p[1],
            conn_handle: handle_at(p, 2),
            interval: bytes::u16_at(p, 12),
            supervision_timeout: bytes::u16_at(p, 16),
        }
    } else if code == EVT_LE_META && p.len() >= 1 && p[0] == SUBEVT_LE_ADVERTISING_REPORT
        && adv_report_of(p.skip(1)) is Some {
        EventView::LeAdvertisingReport(adv_report_of(p.skip(1))->0)
    } else {
        EventView::Other { code, params: p }
    }
}

/// The events whose truncation is fatal: inventing a connection handle or a
/// disconnect reason from bytes that never arrived is far worse than an error.
pub open spec fn must_be_whole(code: u8) -> bool {
    ||| code == EVT_COMMAND_COMPLETE
    ||| code == EVT_COMMAND_STATUS
    ||| code == EVT_DISCONNECTION_COMPLETE
    ||| code == EVT_ENCRYPTION_CHANGE
    ||| code == EVT_LE_META
}

/// The event in `buf`, which is `[code][length][parameters..]`.
///
/// The length field is trusted over the size of `buf`. Bytes past it belong to
/// something else. Where fewer arrived than it claims, that is an error for the
/// events that must be whole, and for any other what arrived is kept as it is.
pub open spec fn event_of(buf: Seq<u8>) -> core::result::Result<EventView, error::ErrorView> {
    if buf.len() < 2 {
        Err(
            error::ErrorView::Protocol(
                "event packet too short: "@ + text::decimal(buf.len()) + " bytes"@,
            ),
        )
    } else if buf.len() >= 2 + buf[1] {
        Ok(decode_params(buf[0], buf.subrange(2, 2 + buf[1])))
    } else if must_be_whole(buf[0]) {
        Err(
            error::ErrorView::Protocol(
                "event 0x"@ + text::hex2(buf[0]) + " claims "@ + text::decimal(buf[1] as nat)
                    + " params, got "@ + text::decimal((buf.len() - 2) as nat),
            ),
        )
    } else {
        Ok(EventView::Other { code: buf[0], params: buf.skip(2) })
    }
}

/// An event that may have been read.
pub open spec fn maybe_event(e: Option<Event>) -> Option<EventView> {
    match e {
        Some(e) => Some(e@),
        None => None,
    }
}

/// The views of a result and of its error.
pub open spec fn event_result(r: Result<Event>) -> core::result::Result<
    EventView,
    error::ErrorView,
> {
    match r {
        Ok(e) => Ok(e@),
        Err(e) => Err(e@),
    }
}

/// Decode the LE meta event with parameters `params`.
fn parse_le_meta(params: &[u8]) -> (e: Event)
    ensures
        e@ == decode_params(EVT_LE_META, params@),
{
    if params.len() >= 19 && params[0] == SUBEVT_LE_CONNECTION_COMPLETE {
        return Event::LeConnectionComplete {
            status: params[1],
            conn_handle: read_handle(params, 2),
            interval: join16(params[12], params[13]),
            supervision_timeout: join16(params[16], params[17]),
        };
    }
    if params.len() >= 1 && params[0] == SUBEVT_LE_ADVERTISING_REPORT {
        let body = vstd::slice::slice_subrange(params, 1, params.len());
        assert(body@ =~= params@.skip(1));
        if let Some(r) = parse_adv_report(body) {
            return Event::LeAdvertisingReport(r);
        }
    }
    let e = Event::Other { code: EVT_LE_META, params: vstd::slice::slice_to_vec(params) };
    assert(e@ == decode_params(EVT_LE_META, params@));
    e
}

/// Decode the parameters of one of the events that a pairing consists of.
fn parse_pairing_event(code: u8, params: &[u8]) -> (r: Option<Event>)
    ensures
        match r {
            Some(e) => e@ == decode_params(code, params@) && code != EVT_REMOTE_NAME_COMPLETE,
            None => (code == EVT_LINK_KEY_REQUEST || code == EVT_LINK_KEY_NOTIFICATION || code
                == EVT_IO_CAPABILITY_REQUEST || code == EVT_USER_CONFIRMATION_REQUEST || code
                == EVT_SIMPLE_PAIRING_COMPLETE) ==> decode_params(code, params@)
                == (EventView::Other { code, params: params@ }),
        },
{
    if code == EVT_LINK_KEY_REQUEST && params.len() >= 6 {
        Some(Event::LinkKeyRequest { address: addr_at(params, 0) })
    } else if code == EVT_LINK_KEY_NOTIFICATION && params.len() >= 23 {
        let key: [u8; 16] = [
            params[6],
            params[7],
            params[8],
            params[9],
            params[10],
            params[11],
            params[12],
            params[13],
            params[14],
            params[15],
            params[16],
            params[17],
            params[18],
            params[19],
            params[20],
            params[21],
        ];
        assert(key@ =~= params@.subrange(6, 22));
        Some(Event::LinkKeyNotification { address: addr_at(params, 0), key, key_type: params[22] })
    } else if code == EVT_IO_CAPABILITY_REQUEST && params.len() >= 6 {
        Some(Event::IoCapabilityRequest { address: addr_at(params, 0) })
    } else if code == EVT_USER_CONFIRMATION_REQUEST && params.len() >= 10 {
        Some(
            Event::UserConfirmationRequest {
                address: addr_at(params, 0),
                numeric: join32(params[6], params[7], params[8], params[9]),
            },
        )
    } else if code == EVT_SIMPLE_PAIRING_COMPLETE && params.len() >= 7 {
        Some(Event::SimplePairingComplete { status: params[0], address: addr_at(params, 1) })
    } else {
        None
    }
}

/// Whether the parameters of an event tell the name of a device in valid UTF-8.
pub open spec fn tells_name(code: u8, p: Seq<u8>) -> bool {
    code == EVT_REMOTE_NAME_COMPLETE && p.len() >= 7 && vstd::utf8::valid_utf8(
        before_nul(p.skip(7)),
    )
}

/// The name that the parameters of an event tell: what the bytes before the first zero
/// encode.
pub open spec fn plain_name(p: Seq<u8>) -> Seq<char> {
    vstd::utf8::decode_utf8(before_nul(p.skip(7)))
}

/// Decode the parameters of an event whose length is known to be right.
pub fn parse_params(code: u8, params: &[u8]) -> (e: Event)
    ensures
        e@ == decode_params(code, params@),
        tells_name(code, params@) ==> e@ == named(params@, plain_name(params@)),
{
    if code == EVT_LE_META {
        return parse_le_meta(params);
    }
    if let Some(e) = parse_pairing_event(code, params) {
        return e;
    }
    if code == EVT_COMMAND_COMPLETE && params.len() >= 3 {
        let c = CommandComplete {
            num_hci_command_packets: params[0],
            opcode: Opcode(join16(params[1], params[2])),
            params: copy_range(params, 3, params.len()),
        };
        assert(c.params@ =~= params@.skip(3));
        Event::CommandComplete(c)
    } else if code == EVT_COMMAND_STATUS && params.len() >= 4 {
        Event::CommandStatus { status: params[0], opcode: Opcode(join16(params[2], params[3])) }
    } else if code == EVT_INQUIRY_COMPLETE && params.len() >= 1 {
        Event::InquiryComplete { status: params[0] }
    } else if code == EVT_REMOTE_NAME_COMPLETE && params.len() >= 7 {
        // The name field is a fixed 248 bytes, NUL-padded, not a length-prefixed
        // string. Trimming at the first NUL is the whole decode.
        let raw = vstd::slice::slice_subrange(params, 7, params.len());
        assert(raw@ =~= params@.skip(7));
        remote_name_complete(params, decode_lossy(trim_at_nul(raw)))
    } else if code == EVT_INQUIRY_RESULT || code == EVT_INQUIRY_RESULT_RSSI || code
        == EVT_EXTENDED_INQUIRY_RESULT {
        Event::InquiryResults(parse_inquiry_results(code, params))
    } else if code == EVT_CONNECTION_COMPLETE && params.len() >= 9 {
        Event::ConnectionComplete {
            status: params[0],
            conn_handle: read_handle(params, 1),
            address: addr_at(params, 3),
        }
    } else if code == EVT_CONNECTION_REQUEST && params.len() >= 10 {
        let class_of_device: [u8; 3] = [params[6], params[7], params[8]];
        assert(class_of_device@ =~= params@.subrange(6, 9));
        Event::ConnectionRequest {
            address: addr_at(params, 0),
            class_of_device,
            link_type: params[9],
        }
    } else if code == EVT_AUTHENTICATION_COMPLETE && params.len() >= 3 {
        Event::AuthenticationComplete { status: params[0], conn_handle: read_handle(params, 1) }
    } else if code == EVT_DISCONNECTION_COMPLETE && params.len() >= 4 {
        Event::DisconnectionComplete { conn_handle: read_handle(params, 1), reason: params[3] }
    } else if code == EVT_ENCRYPTION_CHANGE && params.len() >= 4 {
        Event::EncryptionChange {
            status: params[0],
            conn_handle: read_handle(params, 1),
            enabled: params[3],
        }
    } else {
        Event::Other { code, params: vstd::slice::slice_to_vec(params) }
    }
}

/// Decode one HCI event packet: `[code][length][parameters..]`.
pub fn parse_event(buf: &[u8]) -> (r: Result<Event>)
    ensures
        event_result(r) == event_of(buf@),
        buf@.len() >= 2 && buf@.len() >= 2 + buf@[1] && tells_name(
            buf@[0],
            buf@.subrange(2, 2 + buf@[1]),
        ) ==> event_result(r) == Ok::<EventView, error::ErrorView>(
            named(
                buf@.subrange(2, 2 + buf@[1]),
                plain_name(buf@.subrange(2, 2 + buf@[1])),
            ),
        ),
{
    if buf.len() < 2 {
        let mut m = String::new();
        push_text(&mut m, "event packet too short: ");
        push_decimal(&mut m, buf.len());
        push_text(&mut m, " bytes");
        return Err(Error::Protocol(m));
    }
    let code: u8 = buf[0];
    let len: usize = buf[1] as usize;
    if buf.len() >= 2 + len {
        let params = vstd::slice::slice_subrange(buf, 2, 2 + len);
        return Ok(parse_params(code, params));
    }
    if code == EVT_COMMAND_COMPLETE || code == EVT_COMMAND_STATUS || code
        == EVT_DISCONNECTION_COMPLETE || code == EVT_ENCRYPTION_CHANGE || code == EVT_LE_META {
        let mut m = String::new();
        push_text(&mut m, "event 0x");
        push_hex2(&mut m, code);
        push_text(&mut m, " claims ");
        push_decimal(&mut m, len);
        push_text(&mut m, " params, got ");
        push_decimal(&mut m, buf.len() - 2);
        return Err(Error::Protocol(m));
    }
    let params = copy_range(buf, 2, buf.len());
    assert(params@ =~= buf@.skip(2));
    Ok(Event::Other { code, params })
}

/// An event that arrived short invents nothing: it is an error, or it is kept as the
/// bytes that did arrive.
pub proof fn a_short_event_invents_nothing(buf: Seq<u8>)
    requires
        buf.len() >= 2,
        buf.len() < 2 + buf[1],
    ensures
        must_be_whole(buf[0]) ==> event_of(buf) is Err,
        !must_be_whole(buf[0]) ==> event_of(buf) == Ok::<EventView, error::ErrorView>(
            EventView::Other { code: buf[0], params: buf.skip(2) },
        ),
{
}

/// What is not decoded is preserved: its code, and every parameter byte that its
/// length covers and that arrived.
pub proof fn an_undecoded_event_is_kept_whole(buf: Seq<u8>)
    requires
        event_of(buf) matches Ok(e) && e is Other,
    ensures
        event_of(buf)->Ok_0->Other_code == buf[0],
        event_of(buf)->Ok_0->Other_params == buf.subrange(
            2,
            if buf.len() < 2 + buf[1] {
                buf.len() as int
            } else {
                2 + buf[1]
            },
        ),
{
    assert(buf.skip(2) =~= buf.subrange(2, buf.len() as int));
}

/// What follows an event in the same buffer does not change how it decodes.
pub proof fn an_event_ends_at_its_length(buf: Seq<u8>, more: Seq<u8>)
    requires
        buf.len() >= 2,
        buf.len() >= 2 + buf[1],
    ensures
        event_of(buf + more) == event_of(buf),
{
    assert((buf + more).subrange(2, 2 + buf[1]) =~= buf.subrange(2, 2 + buf[1]));
}

/// An event as it goes over the wire: its code, the length of its parameters, and these.
pub open spec fn event_packet(code: u8, params: Seq<u8>) -> Seq<u8> {
    seq![code, params.len() as u8] + params
}

/// Whether some bytes are read as an event.
pub open spec fn reads_as(buf: Seq<u8>, e: EventView) -> bool {
    event_of(buf) == Ok::<EventView, error::ErrorView>(e)
}

/// A whole event is read by its code and its parameters.
proof fn a_packet_is_read(code: u8, params: Seq<u8>)
    requires
        params.len() < 256,
    ensures
        reads_as(event_packet(code, params), decode_params(code, params)),
{
    let buf = event_packet(code, params);
    assert(buf[0] == code);
    assert(buf[1] == params.len());
    assert(buf.subrange(2, 2 + buf[1]) =~= params);
}

/// A handle stands in two bytes, under four bits that are not part of it.
proof fn a_handle_is_read(p: Seq<u8>, i: int, handle: u16, flags: u16)
    requires
        handle < 0x1000,
        flags < 16,
        0 <= i,
        i + 2 <= p.len(),
        p.subrange(i, i + 2) == bytes::le16((handle + 0x1000 * flags) as u16),
    ensures
        handle_at(p, i) == handle,
{
    let x = (handle + 0x1000 * flags) as u16;
    bytes::the_low_byte_comes_first(x, 0, 0);
    assert(p.subrange(i, i + 2)[0] == p[i]);
    assert(p.subrange(i, i + 2)[1] == p[i + 1]);
    assert(bytes::u16_at(p, i) == x);
}

/// How events about links stand on the wire: a status, a handle of twelve bits whatever
/// stands above it, and what each has to say. Further bytes change nothing.
pub proof fn link_events_are_read(
    status: u8,
    handle: u16,
    flags: u16,
    last: u8,
    address: Seq<u8>,
    more: Seq<u8>,
)
    requires
        handle < 0x1000,
        flags < 16,
        address.len() == 6,
        more.len() < 240,
    ensures
        ({
            let h = bytes::le16((handle + 0x1000 * flags) as u16);
            &&& reads_as(
                event_packet(0x08, seq![status] + h + seq![last] + more),
                EventView::EncryptionChange { status, conn_handle: handle, enabled: last },
            )
            &&& reads_as(
                event_packet(0x05, seq![status] + h + seq![last] + more),
                EventView::DisconnectionComplete { conn_handle: handle, reason: last },
            )
            &&& reads_as(
                event_packet(0x06, seq![status] + h + more),
                EventView::AuthenticationComplete { status, conn_handle: handle },
            )
            &&& reads_as(
                event_packet(0x03, seq![status] + h + address + more),
                EventView::ConnectionComplete { status, conn_handle: handle, address },
            )
        }),
{
    let h = bytes::le16((handle + 0x1000 * flags) as u16);
    let a = seq![status] + h + seq![last] + more;
    assert(a[0] == status && a[3] == last);
    assert(a.subrange(1, 3) =~= h);
    a_handle_is_read(a, 1, handle, flags);
    a_packet_is_read(0x08, a);
    a_packet_is_read(0x05, a);
    let b = seq![status] + h + more;
    assert(b[0] == status);
    assert(b.subrange(1, 3) =~= h);
    a_handle_is_read(b, 1, handle, flags);
    a_packet_is_read(0x06, b);
    let c = seq![status] + h + address + more;
    assert(c[0] == status);
    assert(c.subrange(1, 3) =~= h);
    assert(c.subrange(3, 9) =~= address);
    a_handle_is_read(c, 1, handle, flags);
    a_packet_is_read(0x03, c);
}

/// How the events of a pairing stand on the wire: the address as it came, and what each has
/// to say behind it. Further bytes change nothing.
pub proof fn pairing_events_are_read(
    address: Seq<u8>,
    class: Seq<u8>,
    key: Seq<u8>,
    b: u8,
    numeric: u32,
    more: Seq<u8>,
)
    requires
        address.len() == 6,
        class.len() == 3,
        key.len() == 16,
        more.len() < 220,
    ensures
        reads_as(
            event_packet(0x04, address + class + seq![b] + more),
            EventView::ConnectionRequest { address, class_of_device: class, link_type: b },
        ),
        reads_as(event_packet(0x17, address + more), EventView::LinkKeyRequest { address }),
        reads_as(
            event_packet(0x18, address + key + seq![b] + more),
            EventView::LinkKeyNotification { address, key, key_type: b },
        ),
        reads_as(event_packet(0x31, address + more), EventView::IoCapabilityRequest { address }),
        reads_as(
            event_packet(0x33, address + bytes::le32(numeric) + more),
            EventView::UserConfirmationRequest { address, numeric },
        ),
        reads_as(
            event_packet(0x36, seq![b] + address + more),
            EventView::SimplePairingComplete { status: b, address },
        ),
{
    let p = address + class + seq![b] + more;
    assert(p.subrange(0, 6) =~= address);
    assert(p.subrange(6, 9) =~= class);
    assert(p[9] == b);
    a_packet_is_read(0x04, p);
    let q = address + more;
    assert(q.subrange(0, 6) =~= address);
    a_packet_is_read(0x17, q);
    a_packet_is_read(0x31, q);
    let r = address + key + seq![b] + more;
    assert(r.subrange(0, 6) =~= address);
    assert(r.subrange(6, 22) =~= key);
    assert(r[22] == b);
    a_packet_is_read(0x18, r);
    let n = bytes::le32(numeric);
    let s = address + n + more;
    bytes::le32_round_trips(numeric);
    assert(s.subrange(0, 6) =~= address);
    assert(s[6] == n[0] && s[7] == n[1] && s[8] == n[2] && s[9] == n[3]);
    a_packet_is_read(0x33, s);
    let t = seq![b] + address + more;
    assert(t[0] == b);
    assert(t.subrange(1, 7) =~= address);
    a_packet_is_read(0x36, t);
}

/// How answers to commands stand on the wire: how many more may be sent, the command, and
/// what it returns; or a status, how many more, and the command.
pub proof fn command_events_are_read(slots: u8, status: u8, opcode: u16, returned: Seq<u8>)
    requires
        returned.len() < 250,
    ensures
        reads_as(
            event_packet(0x0E, seq![slots] + bytes::le16(opcode) + returned),
            EventView::CommandComplete(
                CommandCompleteView {
                    num_hci_command_packets: slots,
                    opcode: Opcode(opcode),
                    params: returned,
                },
            ),
        ),
        reads_as(
            event_packet(0x0F, seq![status, slots] + bytes::le16(opcode) + returned),
            EventView::CommandStatus { status, opcode: Opcode(opcode) },
        ),
        reads_as(event_packet(0x01, seq![status] + returned), EventView::InquiryComplete { status }),
        status_of(seq![status] + returned) == Some(status),
        status_of(seq![]) is None,
{
    let o = bytes::le16(opcode);
    bytes::le16_round_trips(opcode);
    let p = seq![slots] + o + returned;
    assert(p[0] == slots && p[1] == o[0] && p[2] == o[1]);
    assert(p.skip(3) =~= returned);
    a_packet_is_read(0x0E, p);
    let q = seq![status, slots] + o + returned;
    assert(q[0] == status && q[2] == o[0] && q[3] == o[1]);
    a_packet_is_read(0x0F, q);
    let r = seq![status] + returned;
    assert(r[0] == status);
    a_packet_is_read(0x01, r);
}

/// How the answer of a device that told its name stands on the wire: a status, its address,
/// and the name, which ends at the first zero.
pub proof fn a_name_is_read(status: u8, address: Seq<u8>, name: Seq<u8>, padding: Seq<u8>)
    requires
        address.len() == 6,
        forall|i: int| 0 <= i < name.len() ==> name[i] != 0,
        name.len() + padding.len() < 240,
    ensures
        reads_as(
            event_packet(0x07, seq![status] + address + name + seq![0u8] + padding),
            EventView::RemoteNameComplete { status, address, name: lossy_text(name) },
        ),
        reads_as(
            event_packet(0x07, seq![status] + address + name),
            EventView::RemoteNameComplete { status, address, name: lossy_text(name) },
        ),
{
    let p = seq![status] + address + name + seq![0u8] + padding;
    let field = p.skip(7);
    assert(p[0] == status);
    assert(p.subrange(1, 7) =~= address);
    assert(field =~= name + seq![0u8] + padding);
    nul_index_is_first(field);
    let n = name.len() as int;
    assert(field[n] == 0);
    assert(forall|j: int| 0 <= j < n ==> field[j] == name[j]);
    assert(nul_index(field) == n);
    assert(before_nul(field) =~= name);
    a_packet_is_read(0x07, p);
    let q = seq![status] + address + name;
    assert(q[0] == status);
    assert(q.subrange(1, 7) =~= address);
    assert(q.skip(7) =~= name);
    nul_index_is_first(name);
    assert(nul_index(name) == n);
    assert(before_nul(name) =~= name);
    a_packet_is_read(0x07, q);
}

/// How the outcome of connecting to a peripheral stands on the wire.
pub proof fn an_le_connection_is_read(
    status: u8,
    handle: u16,
    role: u8,
    peer: Seq<u8>,
    interval: u16,
    latency: u16,
    timeout: u16,
    accuracy: u8,
)
    requires
        handle < 0x1000,
        peer.len() == 7,
    ensures
        reads_as(
            event_packet(
                0x3E,
                seq![0x01u8, status] + bytes::le16(handle) + seq![role] + peer + bytes::le16(
                    interval,
                ) + bytes::le16(latency) + bytes::le16(timeout) + seq![accuracy],
            ),
            EventView::LeConnectionComplete {
                status,
                conn_handle: handle,
                interval,
                supervision_timeout: timeout,
            },
        ),
{
    let h = bytes::le16(handle);
    let i = bytes::le16(interval);
    let l = bytes::le16(latency);
    let t = bytes::le16(timeout);
    let p = seq![0x01u8, status] + h + seq![role] + peer + i + l + t + seq![accuracy];
    bytes::le16_round_trips(interval);
    bytes::le16_round_trips(timeout);
    assert(p.len() == 19);
    assert(p[0] == 1 && p[1] == status);
    assert(p.subrange(2, 4) =~= bytes::le16((handle + 0x1000 * 0) as u16));
    a_handle_is_read(p, 2, handle, 0);
    assert(p[12] == i[0] && p[13] == i[1]);
    assert(p[16] == t[0] && p[17] == t[1]);
    a_packet_is_read(0x3E, p);
}

/// A signal strength is a byte whose upper half counts below zero.
proof fn a_strength_is_signed(rssi: i8, b: u8)
    requires
        b == if rssi < 0 {
            rssi + 256
        } else {
            rssi as int
        },
    ensures
        b as i8 == rssi,
{
    assert(rssi < 0 ==> ((rssi as i16 + 256) as u8) as i8 == rssi) by (bit_vector);
    assert(rssi >= 0 ==> (rssi as u8) as i8 == rssi) by (bit_vector);
}

/// How an advertisement stands on the wire: its kind, the kind of its address and the address
/// back to front, its data behind their length, and how strong it was heard.
pub proof fn an_advertisement_is_read(
    count: u8,
    event_type: u8,
    address_type: u8,
    a: Seq<u8>,
    data: Seq<u8>,
    rssi: i8,
    more: Seq<u8>,
)
    requires
        a.len() == 6,
        data.len() + more.len() < 240,
    ensures
        reads_as(
            event_packet(
                0x3E,
                seq![0x02u8, count, event_type, address_type, a[5], a[4], a[3], a[2], a[1], a[0]]
                    + seq![data.len() as u8] + data + seq![
                    if rssi < 0 {
                        (rssi + 256) as u8
                    } else {
                        rssi as u8
                    },
                ] + more,
            ),
            EventView::LeAdvertisingReport(
                AdvReportView { event_type, address_type, address: a, data, rssi },
            ),
        ),
{
    let b = if rssi < 0 {
        (rssi + 256) as u8
    } else {
        rssi as u8
    };
    let head = seq![0x02u8, count, event_type, address_type, a[5], a[4], a[3], a[2], a[1], a[0]];
    let p = head + seq![data.len() as u8] + data + seq![b] + more;
    let body = p.skip(1);
    let n = data.len() as int;
    assert(forall|i: int| 0 <= i < 9 ==> body[i] == head[i + 1]);
    assert(body[9] == n);
    assert(body.subrange(10, 10 + n) =~= data);
    assert(body[10 + n] == b);
    assert(bytes::reversed(body.subrange(3, 9)) =~= a);
    assert(p[0] == 2);
    a_strength_is_signed(rssi, b);
    a_packet_is_read(0x3E, p);
}

/// What is shorter than its kind has to be is kept as it is, and so is what is of no kind
/// that is known.
pub proof fn what_is_too_short_is_kept(code: u8, params: Seq<u8>)
    requires
        params.len() < 256,
        ({
            ||| code == 0x0E && params.len() < 3
            ||| code == 0x0F && params.len() < 4
            ||| code == 0x01 && params.len() < 1
            ||| code == 0x07 && params.len() < 7
            ||| code == 0x03 && params.len() < 9
            ||| code == 0x04 && params.len() < 10
            ||| code == 0x06 && params.len() < 3
            ||| code == 0x17 && params.len() < 6
            ||| code == 0x18 && params.len() < 23
            ||| code == 0x31 && params.len() < 6
            ||| code == 0x33 && params.len() < 10
            ||| code == 0x36 && params.len() < 7
            ||| code == 0x05 && params.len() < 4
            ||| code == 0x08 && params.len() < 4
            ||| code == 0x3E && params.len() > 0 && params[0] == 1 && params.len() < 19
            ||| code == 0x3E && (params.len() == 0 || params[0] == 0 || params[0] > 2)
            ||| code == 0 || 0x09 <= code < 0x0E || 0x10 <= code < 0x17 || 0x19 <= code < 0x22
            ||| 0x23 <= code < 0x2F || code == 0x30 || code == 0x32 || code == 0x34 || code == 0x35
            ||| 0x37 <= code < 0x3E || code > 0x3E
        }),
    ensures
        reads_as(event_packet(code, params), EventView::Other { code, params }),
{
    a_packet_is_read(code, params);
}

/// Of the events that arrive short, those that say how a command went, or that a link changed,
/// are errors, and every other is kept.
pub proof fn some_events_must_be_whole(buf: Seq<u8>)
    requires
        buf.len() >= 2,
        buf.len() < 2 + buf[1],
    ensures
        event_of(buf) is Err <==> buf[0] == 0x0E || buf[0] == 0x0F || buf[0] == 0x05 || buf[0]
            == 0x08 || buf[0] == 0x3E,
{
}

/// Columns: every entry of the first list, then every one of the next.
pub open spec fn flat(all: Seq<Seq<u8>>) -> Seq<u8>
    decreases all.len(),
{
    if all.len() == 0 {
        seq![]
    } else {
        flat(all.drop_last()) + all.last()
    }
}

/// Entries of one width stand at multiples of it.
proof fn flat_at(all: Seq<Seq<u8>>, width: int)
    requires
        forall|i: int| 0 <= i < all.len() ==> (#[trigger] all[i]).len() == width,
    ensures
        flat(all).len() == width * all.len(),
        forall|i: int|
            0 <= i < all.len() ==> flat(all).subrange(width * i, width * i + width)
                == #[trigger] all[i],
    decreases all.len(),
{
    if all.len() > 0 {
        let most = all.drop_last();
        let n = all.len() - 1;
        assert(forall|i: int| 0 <= i < n ==> most[i] == #[trigger] all[i]);
        flat_at(most, width);
        assert(width * (n + 1) == width * n + width) by (nonlinear_arith);
        assert(all.last().len() == width) by {
            assert(all[n] == all.last());
        }
        assert forall|i: int| 0 <= i < all.len() implies flat(all).subrange(
            width * i,
            width * i + width,
        ) == #[trigger] all[i] by {
            if i < n {
                assert(0 <= width * i && width * i + width <= width * n) by (nonlinear_arith)
                    requires
                        0 <= i < n,
                        width >= 0,
                ;
                assert(flat(all).subrange(width * i, width * i + width) =~= flat(most).subrange(
                    width * i,
                    width * i + width,
                ));
                assert(most[i] == all[i]);
            } else {
                assert(flat(all).subrange(width * n, width * n + width) =~= all.last());
            }
        }
    }
}

/// How the answers to an inquiry stand on the wire: by columns, first how many there are,
/// then every address, every repetition mode, what is reserved, every class, every clock
/// offset, and, in the longer form, every signal strength. What each device said comes back
/// as its own.
pub proof fn inquiry_columns_are_read(
    long: bool,
    addresses: Seq<Seq<u8>>,
    modes: Seq<u8>,
    reserved: Seq<u8>,
    classes: Seq<Seq<u8>>,
    clocks: Seq<Seq<u8>>,
    strengths: Seq<u8>,
    more: Seq<u8>,
    i: int,
)
    requires
        addresses.len() < 256,
        modes.len() == addresses.len(),
        classes.len() == addresses.len(),
        clocks.len() == addresses.len(),
        reserved.len() == if long {
            addresses.len()
        } else {
            2 * addresses.len()
        },
        strengths.len() == if long {
            addresses.len()
        } else {
            0
        },
        forall|k: int| 0 <= k < addresses.len() ==> (#[trigger] addresses[k]).len() == 6,
        forall|k: int| 0 <= k < classes.len() ==> (#[trigger] classes[k]).len() == 3,
        forall|k: int| 0 <= k < clocks.len() ==> (#[trigger] clocks[k]).len() == 2,
        0 <= i < addresses.len(),
    ensures
        ({
            let found = inquiry_devices(
                if long {
                    0x22
                } else {
                    0x02
                },
                seq![addresses.len() as u8] + flat(addresses) + modes + reserved + flat(classes)
                    + flat(clocks) + strengths + more,
            );
            &&& found.len() == addresses.len()
            &&& found[i].address == addresses[i]
            &&& found[i].page_scan_repetition_mode == modes[i]
            &&& found[i].class_of_device == classes[i]
            &&& found[i].clock_offset == clocks[i][0] + 256 * clocks[i][1]
            &&& found[i].rssi == if long {
                Some(strengths[i] as i8)
            } else {
                None
            }
        }),
{
    let n = addresses.len() as int;
    let code: u8 = if long {
        0x22
    } else {
        0x02
    };
    let fa = flat(addresses);
    let fc = flat(classes);
    let fk = flat(clocks);
    let p = seq![n as u8] + fa + modes + reserved + fc + fk + strengths + more;
    flat_at(addresses, 6);
    flat_at(classes, 3);
    flat_at(clocks, 2);
    assert(p[0] == n);
    let at_modes = 1 + 6 * n;
    let at_classes = at_modes + n + (if long {
        n
    } else {
        2 * n
    });
    let at_clocks = at_classes + 3 * n;
    let at_strengths = at_clocks + 2 * n;
    assert(p.len() >= at_strengths + strengths.len());
    assert(p.subrange(1 + 6 * i, 1 + 6 * i + 6) =~= fa.subrange(6 * i, 6 * i + 6));
    assert(addresses[i] == fa.subrange(6 * i, 6 * i + 6));
    assert(p[at_modes + i] == modes[i]);
    assert(p.subrange(at_classes + 3 * i, at_classes + 3 * i + 3) =~= fc.subrange(
        3 * i,
        3 * i + 3,
    ));
    assert(classes[i] == fc.subrange(3 * i, 3 * i + 3));
    assert(clocks[i] == fk.subrange(2 * i, 2 * i + 2));
    assert(clocks[i][0] == fk[2 * i] && clocks[i][1] == fk[2 * i + 1]);
    assert(p[at_clocks + 2 * i] == fk[2 * i]);
    assert(p[at_clocks + 2 * i + 1] == fk[2 * i + 1]);
    if long {
        assert(p[at_strengths + i] == strengths[i]);
    }
    assert(inquiry_block_complete(p));
    assert(inquiry_devices(code, p)[i] == inquiry_device(code, p, i));
}

/// The fields of a Class of Device stand where the assigned numbers put them, whatever the
/// bits around them; and a gamepad is a peripheral whose kind is a joystick or a gamepad.
pub proof fn a_class_is_read_by_its_fields(
    format: u8,
    minor: u8,
    pointer: u8,
    major: u8,
    services: u8,
    rest: u8,
)
    requires
        format < 4,
        minor < 16,
        pointer < 4,
        major < 32,
        services < 8,
    ensures
        ({
            let class = seq![
                (format + 4 * minor + 64 * pointer) as u8,
                (major + 32 * services) as u8,
                rest,
            ];
            &&& major_class_of(class) == major
            &&& minor_class_of(class) == minor
            &&& gamepad_class(class) <==> major == 5 && (minor == 1 || minor == 2)
        }),
{
}

/// AD structures as they stand in an advertisement, each behind its length.
pub open spec fn ad_bytes(all: Seq<AdStructure>) -> Seq<u8>
    decreases all.len(),
{
    if all.len() == 0 {
        seq![]
    } else {
        seq![(all[0].data.len() + 1) as u8, all[0].kind] + all[0].data + ad_bytes(all.skip(1))
    }
}

/// Every AD structure of an advertisement is found, in order, up to its end or to a length
/// of zero.
pub proof fn ad_structures_come_back(all: Seq<AdStructure>, padding: Seq<u8>)
    requires
        forall|i: int| 0 <= i < all.len() ==> (#[trigger] all[i]).data.len() < 255,
        padding.len() > 0 ==> padding[0] == 0,
    ensures
        ad_structures(ad_bytes(all) + padding) == all,
    decreases all.len(),
{
    let buf = ad_bytes(all) + padding;
    if all.len() == 0 {
        assert(buf =~= padding);
        assert(ad_structures(buf) =~= all);
    } else {
        let rest = all.skip(1);
        assert(forall|i: int| 0 <= i < rest.len() ==> rest[i] == #[trigger] all[i + 1]);
        assert forall|i: int| 0 <= i < rest.len() implies (#[trigger] rest[i]).data.len() < 255 by {
            assert(rest[i] == all[i + 1]);
        }
        ad_structures_come_back(rest, padding);
        let d = all[0].data;
        let n = d.len() as int;
        assert(buf[0] == n + 1);
        assert(buf[1] == all[0].kind);
        assert(buf.subrange(2, 1 + buf[0]) =~= d);
        assert(buf.skip(1 + buf[0]) =~= ad_bytes(rest) + padding);
        assert(all =~= seq![all[0]] + rest);
        assert(ad_structures(buf) =~= all);
    }
}

/// The manufacturer data of an advertisement is that of the first structure that says so,
/// wherever it stands; without one there is none.
pub proof fn manufacturer_data_is_found(all: Seq<AdStructure>, padding: Seq<u8>)
    requires
        forall|i: int| 0 <= i < all.len() ==> (#[trigger] all[i]).data.len() < 255,
        padding.len() > 0 ==> padding[0] == 0,
    ensures
        forall|k: int|
            0 <= k < all.len() && (#[trigger] all[k]).kind == 0xFF && (forall|j: int|
                0 <= j < k ==> (#[trigger] all[j]).kind != 0xFF) ==> manufacturer_data_of(
                ad_bytes(all) + padding,
            ) == Some(all[k].data),
        (forall|j: int| 0 <= j < all.len() ==> (#[trigger] all[j]).kind != 0xFF)
            ==> manufacturer_data_of(ad_bytes(all) + padding) is None,
{
    ad_structures_come_back(all, padding);
    the_first_of_a_kind(all, 0xFF);
}

/// The first structure of a kind is one that none of its kind stands before.
proof fn the_first_of_a_kind(all: Seq<AdStructure>, kind: u8)
    ensures
        forall|k: int|
            0 <= k < all.len() && (#[trigger] all[k]).kind == kind && (forall|j: int|
                0 <= j < k ==> (#[trigger] all[j]).kind != kind) ==> first_of_kind(all, kind)
                == Some(all[k].data),
        (forall|j: int| 0 <= j < all.len() ==> (#[trigger] all[j]).kind != kind)
            ==> first_of_kind(all, kind) is None,
    decreases all.len(),
{
    if all.len() > 0 {
        let rest = all.skip(1);
        assert(forall|i: int| 0 <= i < rest.len() ==> rest[i] == #[trigger] all[i + 1]);
        the_first_of_a_kind(rest, kind);
        assert forall|k: int|
            0 <= k < all.len() && (#[trigger] all[k]).kind == kind && (forall|j: int|
                0 <= j < k ==> (#[trigger] all[j]).kind != kind) implies first_of_kind(all, kind)
            == Some(all[k].data) by {
            if k > 0 {
                assert(all[0].kind != kind);
                assert(rest[k - 1] == all[k]);
                assert forall|j: int| 0 <= j < k - 1 implies (#[trigger] rest[j]).kind != kind by {
                    assert(rest[j] == all[j + 1]);
                }
            }
        }
        if forall|j: int| 0 <= j < all.len() ==> (#[trigger] all[j]).kind != kind {
            assert(all[0].kind != kind);
            assert forall|j: int| 0 <= j < rest.len() implies (#[trigger] rest[j]).kind != kind by {
                assert(rest[j] == all[j + 1]);
            }
        }
    }
}

/// All three forms of an inquiry result are read as the devices that they list, the extended
/// form like the one with signal strengths; and where not every device that is claimed
/// arrived, none is made up.
pub proof fn inquiry_results_are_read(params: Seq<u8>)
    requires
        params.len() < 256,
    ensures
        reads_as(
            event_packet(0x02, params),
            EventView::InquiryResults(inquiry_devices(0x02, params)),
        ),
        reads_as(
            event_packet(0x22, params),
            EventView::InquiryResults(inquiry_devices(0x22, params)),
        ),
        reads_as(
            event_packet(0x2F, params),
            EventView::InquiryResults(inquiry_devices(0x22, params)),
        ),
        params.len() == 0 || params.len() < 1 + 14 * params[0] ==> inquiry_devices(0x02, params)
            == Seq::<InquiryResultView>::empty() && inquiry_devices(0x22, params) == Seq::<
            InquiryResultView,
        >::empty(),
{
    a_packet_is_read(0x02, params);
    a_packet_is_read(0x22, params);
    a_packet_is_read(0x2F, params);
    assert(inquiry_devices(0x2F, params) =~= inquiry_devices(0x22, params));
}

/// A string ends at its first zero byte, whatever follows; one without a zero is all of it.
pub proof fn a_string_ends_at_its_first_zero(s: Seq<u8>, more: Seq<u8>)
    requires
        forall|i: int| 0 <= i < s.len() ==> #[trigger] s[i] != 0,
    ensures
        before_nul(s + seq![0u8] + more) == s,
        before_nul(s) == s,
{
    let all = s + seq![0u8] + more;
    nul_index_is_first(all);
    nul_index_is_first(s);
    let n = s.len() as int;
    let k = nul_index(all) as int;
    if k < n {
        assert(all[k] == s[k]);
    }
    if n < k {
        assert(all[n] == 0);
    }
    assert(before_nul(all) =~= s);
    let m = nul_index(s) as int;
    if m < n {
        assert(s[m] != 0);
    }
    assert(before_nul(s) =~= s);
}

} // verus!
