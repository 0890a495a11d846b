//! What is asked of the controller, and what its answers mean.
use vstd::prelude::*;
use crate::bytes;
use crate::bytes::{push16, push64, push_all, reverse6, six_at};
use crate::commands::same_address;
use crate::error;
use crate::error::{Error, Result};
use crate::hci;
use crate::hci::{CommandComplete, Event, InquiryResult, Opcode};
use crate::pairing::REASON_USER_ENDED;
use crate::text;
use crate::text::{push_decimal, push_hex2, push_text, with_byte};

verus! {

/// What a link actually negotiated, as opposed to what was asked for.
#[derive(Debug, Clone, Copy, PartialEq, Eq, Structural)]
pub struct LinkParams {
    pub conn_handle: u16,
    /// Connection interval in 1.25 ms units.
    pub interval: u16,
    /// Supervision timeout in 10 ms units.
    pub supervision_timeout: u16,
}

/// A supervision timeout in milliseconds. It is counted in hundredths of a second.
pub open spec fn timeout_of(hundredths: u16) -> int {
    10 * hundredths
}

impl LinkParams {
    /// The supervision timeout in milliseconds.
    pub fn timeout_ms(&self) -> (ms: u32)
        ensures
            ms == timeout_of(self.supervision_timeout),
    {
        self.supervision_timeout as u32 * 10
    }
}

/// A status byte as text, where there is one: `Some(18)` or `None`.
pub open spec fn status_text(s: Option<u8>) -> Seq<char> {
    match s {
        Some(v) => "Some("@ + text::decimal(v as nat) + ")"@,
        None => "None"@,
    }
}

/// A sentence that ends in the status of a command.
fn with_status(words: &str, s: Option<u8>) -> (m: String)
    ensures
        m@ == words@ + status_text(s),
{
    let mut m = String::new();
    push_text(&mut m, words);
    match s {
        Some(v) => {
            push_text(&mut m, "Some(");
            push_decimal(&mut m, v as usize);
            push_text(&mut m, ")");
        },
        None => {
            push_text(&mut m, "None");
        },
    }
    assert(m@ =~= words@ + status_text(s));
    m
}

/// Whether an event is the completion of a command.
pub open spec fn is_completion(e: hci::EventView, opcode: u16) -> bool {
    e matches hci::EventView::CommandComplete(c) && c.opcode == Opcode(opcode)
}

/// The completion of a command, where an event is that. Unrelated events are skipped
/// rather than treated as failures: a dongle emits plenty unprompted.
pub fn completion(event: Event, opcode: Opcode) -> (r: Option<CommandComplete>)
    ensures
        match r {
            Some(c) => is_completion(event@, opcode.0) && event@ == hci::EventView::CommandComplete(
                c@,
            ),
            None => !is_completion(event@, opcode.0),
        },
{
    match event {
        Event::CommandComplete(c) => {
            if c.opcode.0 == opcode.0 {
                Some(c)
            } else {
                None
            }
        },
        _ => None,
    }
}

/// The error of a command that was never completed.
pub fn never_completed(opcode: Opcode) -> (e: Error)
    ensures
        e@ == error::ErrorView::Protocol(
            "no Command Complete for Opcode("@ + text::decimal(opcode.0 as nat)
                + ") within 2 s"@,
        ),
{
    let mut m = String::new();
    push_text(&mut m, "no Command Complete for Opcode(");
    push_decimal(&mut m, opcode.0 as usize);
    push_text(&mut m, ") within 2 s");
    Error::Protocol(m)
}

/// Whether a command succeeded, and otherwise the error that says so behind `words`.
pub open spec fn checked(words: Seq<char>, params: Seq<u8>) -> core::result::Result<
    (),
    error::ErrorView,
> {
    if hci::status_of(params) == Some(0u8) {
        Ok(())
    } else {
        Err(error::ErrorView::Protocol(words + status_text(hci::status_of(params))))
    }
}

/// A result by the view of its error.
pub open spec fn unit_view(r: Result<()>) -> core::result::Result<(), error::ErrorView> {
    match r {
        Ok(()) => Ok(()),
        Err(e) => Err(e@),
    }
}

/// Check that a command succeeded.
pub fn check(words: &str, c: &CommandComplete) -> (r: Result<()>)
    ensures
        unit_view(r) == checked(words@, c.params@),
{
    if c.succeeded() {
        Ok(())
    } else {
        Err(Error::Protocol(with_status(words, c.status())))
    }
}

/// How far bringing up the controller has come.
#[derive(Debug, Clone, Copy, PartialEq, Eq, Structural)]
pub enum InitStage {
    /// Resetting it, for the time that `attempt` counts.
    Reset { attempt: u8 },
    /// Letting it report everything, LE events among it: after a reset they are masked.
    EventMask,
    /// Letting it report the LE events that the stack depends on.
    LeEventMask,
    /// Asking it for its address, while nothing else uses the radio.
    Address,
}

/// How often a reset is tried. It is the first thing sent to a dongle that may still be
/// mid-conversation, and can take long to answer.
pub const RESET_ATTEMPTS: u8 = 3;

/// Everything that is defined, without setting reserved bits.
pub const EVENT_MASK: [u8; 8] = [0xff, 0xff, 0xff, 0xff, 0xff, 0xff, 0xff, 0x3f];

/// The LE events of the low byte: advertising reports, connections and their updates.
pub const LE_EVENT_MASK: [u8; 8] = [0xff, 0x00, 0x00, 0x00, 0x00, 0x00, 0x00, 0x00];

/// What follows an answer while the controller is brought up.
#[derive(Debug, Clone, PartialEq, Eq)]
pub enum InitNext {
    /// Go on with this stage.
    Go(InitStage),
    /// The controller is up; its address, where it told it.
    Up(Option<[u8; 6]>),
    /// The controller could not be brought up.
    Failed(Error),
}

/// An [`InitNext`] by the views of its parts.
#[verifier::ext_equal]
pub enum InitNextView {
    Go(InitStage),
    Up(Option<Seq<u8>>),
    Failed(error::ErrorView),
}

impl View for InitNext {
    type V = InitNextView;

    open spec fn view(&self) -> InitNextView {
        match self {
            InitNext::Go(s) => InitNextView::Go(*s),
            InitNext::Up(Some(a)) => InitNextView::Up(Some(a@)),
            InitNext::Up(None) => InitNextView::Up(None),
            InitNext::Failed(e) => InitNextView::Failed(e@),
        }
    }
}

/// An answer to a command by the views of its parts.
pub open spec fn answer_view(r: Result<CommandComplete>) -> core::result::Result<
    hci::CommandCompleteView,
    error::ErrorView,
> {
    match r {
        Ok(c) => Ok(c@),
        Err(e) => Err(e@),
    }
}

/// Why an answer is a failure: its own error, or the status it came with.
pub open spec fn failure_of(
    words: Seq<char>,
    r: core::result::Result<hci::CommandCompleteView, error::ErrorView>,
) -> Option<error::ErrorView> {
    match r {
        Err(e) => Some(e),
        Ok(c) => match checked(words, c.params) {
            Ok(()) => None,
            Err(e) => Some(e),
        },
    }
}

/// The dongle's own address out of the answer to the question for it: it arrives back
/// to front behind a status.
pub open spec fn own_address_of(params: Seq<u8>) -> Option<Seq<u8>> {
    if params.len() < 7 || params[0] != 0 {
        None
    } else {
        Some(bytes::reversed(params.subrange(1, 7)))
    }
}

impl InitStage {
    /// The command of a stage.
    pub open spec fn opcode(self) -> u16 {
        match self {
            InitStage::Reset { .. } => Opcode::RESET,
            InitStage::EventMask => Opcode::SET_EVENT_MASK,
            InitStage::LeEventMask => Opcode::LE_SET_EVENT_MASK,
            InitStage::Address => Opcode::READ_BD_ADDR,
        }
    }

    /// The parameters of the command of a stage.
    pub open spec fn params(self) -> Seq<u8> {
        match self {
            InitStage::EventMask => EVENT_MASK@,
            InitStage::LeEventMask => LE_EVENT_MASK@,
            _ => seq![],
        }
    }

    /// What an answer leads to. A reset that fails is tried again while attempts are
    /// left. That the address cannot be read is not fatal: it is needed for pairing
    /// only.
    pub open spec fn after(
        self,
        r: core::result::Result<hci::CommandCompleteView, error::ErrorView>,
    ) -> InitNextView {
        match self {
            InitStage::Reset { attempt } => match failure_of("HCI_Reset status "@, r) {
                None => InitNextView::Go(InitStage::EventMask),
                Some(e) => if attempt < RESET_ATTEMPTS {
                    InitNextView::Go(InitStage::Reset { attempt: (attempt + 1) as u8 })
                } else {
                    InitNextView::Failed(e)
                },
            },
            InitStage::EventMask => match failure_of("HCI_Set_Event_Mask status "@, r) {
                None => InitNextView::Go(InitStage::LeEventMask),
                Some(e) => InitNextView::Failed(e),
            },
            InitStage::LeEventMask => match failure_of("HCI_LE_Set_Event_Mask status "@, r) {
                None => InitNextView::Go(InitStage::Address),
                Some(e) => InitNextView::Failed(e),
            },
            InitStage::Address => match r {
                Ok(c) => InitNextView::Up(own_address_of(c.params)),
                Err(_) => InitNextView::Up(None),
            },
        }
    }

    /// The first stage.
    pub fn first() -> (s: InitStage)
        ensures
            s == (InitStage::Reset { attempt: 1 }),
    {
        InitStage::Reset { attempt: 1 }
    }

    /// The command of this stage and its parameters.
    pub fn command(&self) -> (r: (Opcode, Vec<u8>))
        ensures
            r.0 == Opcode(self.opcode()),
            r.1@ == self.params(),
    {
        match self {
            InitStage::Reset { .. } => {
                let none: Vec<u8> = Vec::new();
                assert(none@ =~= seq![]);
                (Opcode(Opcode::RESET), none)
            },
            InitStage::EventMask => {
                let mask: [u8; 8] = EVENT_MASK;
                (Opcode(Opcode::SET_EVENT_MASK), vstd::slice::slice_to_vec(mask.as_slice()))
            },
            InitStage::LeEventMask => {
                let mask: [u8; 8] = LE_EVENT_MASK;
                (Opcode(Opcode::LE_SET_EVENT_MASK), vstd::slice::slice_to_vec(mask.as_slice()))
            },
            InitStage::Address => {
                let none: Vec<u8> = Vec::new();
                assert(none@ =~= seq![]);
                (Opcode(Opcode::READ_BD_ADDR), none)
            },
        }
    }

    /// Take the answer to the command of this stage into account.
    pub fn answer(&self, r: Result<CommandComplete>) -> (n: InitNext)
        ensures
            n@ == self.after(answer_view(r)),
    {
        match self {
            InitStage::Reset { attempt } => match failure("HCI_Reset status ", r) {
                None => InitNext::Go(InitStage::EventMask),
                Some(e) => {
                    if *attempt < RESET_ATTEMPTS {
                        InitNext::Go(InitStage::Reset { attempt: *attempt + 1 })
                    } else {
                        InitNext::Failed(e)
                    }
                },
            },
            InitStage::EventMask => match failure("HCI_Set_Event_Mask status ", r) {
                None => InitNext::Go(InitStage::LeEventMask),
                Some(e) => InitNext::Failed(e),
            },
            InitStage::LeEventMask => match failure("HCI_LE_Set_Event_Mask status ", r) {
                None => InitNext::Go(InitStage::Address),
                Some(e) => InitNext::Failed(e),
            },
            InitStage::Address => match r {
                Ok(c) => InitNext::Up(read_own_address(c.params.as_slice())),
                Err(_) => InitNext::Up(None),
            },
        }
    }
}

/// Find out why an answer is a failure.
fn failure(words: &str, r: Result<CommandComplete>) -> (f: Option<Error>)
    ensures
        match f {
            Some(e) => failure_of(words@, answer_view(r)) == Some(e@),
            None => failure_of(words@, answer_view(r)) is None,
        },
{
    match r {
        Err(e) => Some(e),
        Ok(c) => match check(words, &c) {
            Ok(()) => None,
            Err(e) => Some(e),
        },
    }
}

/// Read the dongle's own address out of return parameters.
fn read_own_address(params: &[u8]) -> (r: Option<[u8; 6]>)
    ensures
        match r {
            Some(a) => own_address_of(params@) == Some(a@),
            None => own_address_of(params@) is None,
        },
{
    if params.len() < 7 || params[0] != 0 {
        return None;
    }
    Some(reverse6(six_at(params, 1)))
}

/// The reset is retried and given up: whatever the answers, no more than the allowed
/// attempts are made, and the controller comes up only by way of both masks.
pub proof fn bringing_up_is_bounded(
    s: InitStage,
    r: core::result::Result<hci::CommandCompleteView, error::ErrorView>,
)
    requires
        s matches InitStage::Reset { attempt } ==> 1 <= attempt <= RESET_ATTEMPTS,
    ensures
        s.after(r) matches InitNextView::Go(InitStage::Reset { attempt }) ==> s
            == (InitStage::Reset { attempt: (attempt - 1) as u8 }) && attempt <= RESET_ATTEMPTS,
        s.after(r) == InitNextView::Go(InitStage::LeEventMask) ==> s == InitStage::EventMask,
        s.after(r) == InitNextView::Go(InitStage::Address) ==> s == InitStage::LeEventMask,
        s.after(r) is Up ==> s == InitStage::Address,
{
}

/// Bytes the way a debugger lists them: two digits each, commas between, in brackets.
pub open spec fn listed_bytes(s: Seq<u8>) -> Seq<char>
    decreases s.len(),
{
    if s.len() == 0 {
        seq![]
    } else if s.len() == 1 {
        text::hex2(s[0])
    } else {
        listed_bytes(s.drop_last()) + ", "@ + text::hex2(s.last())
    }
}

/// Append bytes the way a debugger lists them.
pub fn push_listed_bytes(out: &mut String, s: &[u8])
    ensures
        final(out)@ == old(out)@ + "["@ + listed_bytes(s@) + "]"@,
{
    push_text(out, "[");
    let ghost start = out@;
    let mut i: usize = 0;
    assert(s@.take(0) =~= seq![]);
    assert(out@ =~= start + listed_bytes(s@.take(0)));
    while i < s.len()
        invariant
            i <= s@.len(),
            out@ == start + listed_bytes(s@.take(i as int)),
        decreases s@.len() - i,
    {
        if i > 0 {
            push_text(out, ", ");
        }
        push_hex2(out, s[i]);
        i += 1;
        assert(s@.take(i as int).drop_last() =~= s@.take(i - 1));
        assert(s@.take(i as int).last() == s@[i - 1]);
        assert(out@ =~= start + listed_bytes(s@.take(i as int)));
    }
    assert(s@.take(i as int) =~= s@);
    push_text(out, "]");
}

/// The dongle's own address, in display order, out of the answer to the question.
pub fn own_address(c: &CommandComplete) -> (r: Result<[u8; 6]>)
    ensures
        match r {
            Ok(a) => own_address_of(c.params@) == Some(a@),
            Err(e) => own_address_of(c.params@) is None && e@ == error::ErrorView::Protocol(
                "HCI_Read_BD_ADDR failed: "@ + "["@ + listed_bytes(c.params@) + "]"@,
            ),
        },
{
    match read_own_address(c.params.as_slice()) {
        Some(a) => Ok(a),
        None => {
            let mut m = String::new();
            push_text(&mut m, "HCI_Read_BD_ADDR failed: ");
            push_listed_bytes(&mut m, c.params.as_slice());
            assert(m@ =~= "HCI_Read_BD_ADDR failed: "@ + "["@ + listed_bytes(c.params@) + "]"@);
            Err(Error::Protocol(m))
        },
    }
}

/// The interval and window of an LE scan, in 0.625 ms units: the radio never stops
/// listening.
pub const SCAN_INTERVAL: u16 = 0x0030;

/// The parameters of an LE scan: passive, always listening, public address, everything
/// accepted. An active scan would answer each advertisement with a request and bring in
/// empty replies in place of the payload.
pub open spec fn scan_params_data() -> Seq<u8> {
    seq![0x00u8] + bytes::le16(SCAN_INTERVAL) + bytes::le16(SCAN_INTERVAL) + seq![0x00u8, 0x00u8]
}

/// The parameters of an LE scan.
pub fn scan_params() -> (v: Vec<u8>)
    ensures
        v@ == scan_params_data(),
{
    let mut v: Vec<u8> = Vec::new();
    v.push(0x00);
    push16(&mut v, SCAN_INTERVAL);
    push16(&mut v, SCAN_INTERVAL);
    v.push(0x00);
    v.push(0x00);
    assert(v@ =~= scan_params_data());
    v
}

/// The parameters that start an LE scan, without hiding repetitions, or stop it.
pub open spec fn scan_switch_data(on: bool) -> Seq<u8> {
    seq![
        if on {
            0x01u8
        } else {
            0x00u8
        },
        0x00u8,
    ]
}

/// The parameters that start an LE scan, without hiding repetitions, or stop it.
pub fn scan_switch(on: bool) -> (v: Vec<u8>)
    ensures
        v@ == scan_switch_data(on),
{
    let mut v: Vec<u8> = Vec::new();
    v.push(if on {
        0x01
    } else {
        0x00
    });
    v.push(0x00);
    assert(v@ =~= seq![if on { 0x01u8 } else { 0x00u8 }, 0x00u8]);
    v
}

/// The intervals to ask for at an attempt, the shortest and the longest.
pub open spec fn intervals_of(attempt: u8) -> Option<(u16, u16)> {
    if attempt == 0 {
        Some((4u16, 6u16))
    } else if attempt == 1 {
        Some((6u16, 12u16))
    } else {
        None
    }
}

/// The intervals to ask for, in 1.25 ms units: first below the official minimum, which
/// many controllers honour, then at it.
pub fn interval_for(attempt: u8) -> (r: Option<(u16, u16)>)
    ensures
        r == intervals_of(attempt),
{
    if attempt == 0 {
        Some((4, 6))
    } else if attempt == 1 {
        Some((6, 12))
    } else {
        None
    }
}

/// The parameters that connect to a peripheral. The address is given in display order
/// and goes out reversed.
pub open spec fn connect_params_data(
    address: Seq<u8>,
    address_type: u8,
    interval_min: u16,
    interval_max: u16,
) -> Seq<u8> {
    bytes::le16(0x0060) + bytes::le16(0x0030) + seq![0x00u8, address_type] + bytes::reversed(
        address,
    ) + seq![0x00u8] + bytes::le16(interval_min) + bytes::le16(interval_max) + bytes::le16(0)
        + bytes::le16(0x01F4) + bytes::le16(0) + bytes::le16(0)
}

/// Build the parameters that connect to a peripheral.
pub fn connect_params(
    address: [u8; 6],
    address_type: u8,
    interval_min: u16,
    interval_max: u16,
) -> (v: Vec<u8>)
    ensures
        v@ == connect_params_data(address@, address_type, interval_min, interval_max),
{
    let mut v: Vec<u8> = Vec::new();
    push16(&mut v, 0x0060);
    assert(v@ =~= bytes::le16(0x0060));
    push16(&mut v, 0x0030);
    let ghost a = v@;
    v.push(0x00);
    v.push(address_type);
    assert(v@ =~= a + seq![0x00u8, address_type]);
    let wire = reverse6(address);
    push_all(&mut v, wire.as_slice());
    let ghost b = v@;
    v.push(0x00);
    assert(v@ =~= b + seq![0x00u8]);
    push16(&mut v, interval_min);
    push16(&mut v, interval_max);
    push16(&mut v, 0);
    push16(&mut v, 0x01F4);
    push16(&mut v, 0);
    push16(&mut v, 0);
    v
}

/// Whether connecting goes on, and how it ended where it does not.
#[derive(Debug, Clone, PartialEq, Eq)]
pub enum LeVerdict {
    Waiting,
    Connected(LinkParams),
    /// It failed; the attempt is to be cancelled first where `cancel` says so, or the
    /// controller would refuse the next one.
    Failed { cancel: bool, error: Error },
}

/// A [`LeVerdict`] with its error by its view.
#[verifier::ext_equal]
pub enum LeVerdictView {
    Waiting,
    Connected(LinkParams),
    Failed { cancel: bool, error: error::ErrorView },
}

impl View for LeVerdict {
    type V = LeVerdictView;

    open spec fn view(&self) -> LeVerdictView {
        match self {
            LeVerdict::Waiting => LeVerdictView::Waiting,
            LeVerdict::Connected(p) => LeVerdictView::Connected(*p),
            LeVerdict::Failed { cancel, error } => LeVerdictView::Failed {
                cancel: *cancel,
                error: error@,
            },
        }
    }
}

/// How many reads an attempt to connect may take.
pub const CONNECT_READS: u8 = 40;

/// An attempt to connect to a peripheral: how many reads are left.
#[derive(Debug, Clone, Copy, PartialEq, Eq, Structural)]
pub struct LeConnect {
    pub reads_left: u8,
}

/// What a read leads to, while `reads_left` are left with it: an event, or nothing.
pub open spec fn connecting(reads_left: u8, e: Option<hci::EventView>) -> LeVerdictView {
    match e {
        Some(hci::EventView::CommandStatus { status, opcode }) if opcode
            == Opcode(Opcode::LE_CREATE_CONNECTION) && status != 0 => LeVerdictView::Failed {
            cancel: true,
            error: error::ErrorView::Protocol(
                "LE_Create_Connection rejected, status 0x"@ + text::hex2(status),
            ),
        },
        Some(
            hci::EventView::LeConnectionComplete {
                status,
                conn_handle,
                interval,
                supervision_timeout,
            },
        ) => if status != 0 {
            LeVerdictView::Failed {
                cancel: false,
                error: error::ErrorView::Protocol(
                    "LE Connection Complete status 0x"@ + text::hex2(status),
                ),
            }
        } else {
            LeVerdictView::Connected(LinkParams { conn_handle, interval, supervision_timeout })
        },
        _ => if reads_left <= 1 {
            LeVerdictView::Failed {
                cancel: true,
                error: error::ErrorView::Protocol("no LE Connection Complete"@),
            }
        } else {
            LeVerdictView::Waiting
        },
    }
}

impl LeConnect {
    /// Begin an attempt.
    pub fn new() -> (c: LeConnect)
        ensures
            c.reads_left == CONNECT_READS,
    {
        LeConnect { reads_left: CONNECT_READS }
    }

    /// Take one read into account.
    pub fn step(&mut self, event: Option<Event>) -> (v: LeVerdict)
        requires
            old(self).reads_left > 0,
        ensures
            v@ == connecting(old(self).reads_left, hci::maybe_event(event)),
            final(self).reads_left == old(self).reads_left - 1,
            v is Waiting ==> final(self).reads_left > 0,
    {
        self.reads_left = self.reads_left - 1;
        match event {
            Some(Event::CommandStatus { status, opcode }) => {
                if opcode.0 == Opcode::LE_CREATE_CONNECTION && status != 0 {
                    return LeVerdict::Failed {
                        cancel: true,
                        error: Error::Protocol(
                            with_byte("LE_Create_Connection rejected, status 0x", status),
                        ),
                    };
                }
            },
            Some(
                Event::LeConnectionComplete { status, conn_handle, interval, supervision_timeout },
            ) => {
                if status != 0 {
                    return LeVerdict::Failed {
                        cancel: false,
                        error: Error::Protocol(
                            with_byte("LE Connection Complete status 0x", status),
                        ),
                    };
                }
                return LeVerdict::Connected(
                    LinkParams { conn_handle, interval, supervision_timeout },
                );
            },
            _ => {},
        }
        if self.reads_left == 0 {
            return LeVerdict::Failed {
                cancel: true,
                error: Error::Protocol("no LE Connection Complete".to_owned()),
            };
        }
        LeVerdict::Waiting
    }
}

/// The parameters that end a connection.
pub open spec fn disconnect_data(conn_handle: u16) -> Seq<u8> {
    bytes::le16(conn_handle) + seq![REASON_USER_ENDED]
}

/// The parameters that end a connection.
pub fn disconnect_params(conn_handle: u16) -> (v: Vec<u8>)
    ensures
        v@ == disconnect_data(conn_handle),
{
    let mut v: Vec<u8> = Vec::new();
    push16(&mut v, conn_handle);
    v.push(REASON_USER_ENDED);
    assert(v@ =~= bytes::le16(conn_handle) + seq![REASON_USER_ENDED]);
    v
}

/// Whether the features of a controller say that it supports BR/EDR, where all arrived.
pub open spec fn bredr_of(params: Seq<u8>) -> Option<bool> {
    if params.len() >= 9 {
        Some(params[5] & 0x20 == 0)
    } else {
        None
    }
}

/// Whether a controller supports BR/EDR at all, out of its features. The flag is
/// inverted: bit 5 of byte 4 says that it does not.
///
/// Worth asking before anything else: a controller that does not answers every such
/// command as one it does not know.
pub fn supports_bredr(c: &CommandComplete) -> (r: Result<bool>)
    ensures
        match r {
            Ok(b) => bredr_of(c.params@) == Some(b),
            Err(e) => bredr_of(c.params@) is None && e@ == error::ErrorView::Protocol(
                "Read Local Supported Features returned "@ + text::decimal(c.params@.len())
                    + " bytes, expected 9"@,
            ),
        },
{
    if c.params.len() < 9 {
        let mut m = String::new();
        push_text(&mut m, "Read Local Supported Features returned ");
        push_decimal(&mut m, c.params.len());
        push_text(&mut m, " bytes, expected 9");
        return Err(Error::Protocol(m));
    }
    Ok(c.params[5] & 0x20 == 0)
}

/// A number, or the nearest that is not below `least` nor above `most`.
pub open spec fn clamped(x: int, least: int, most: int) -> int {
    if x < least {
        least
    } else if x > most {
        most
    } else {
        x
    }
}

/// A page timeout within what the command takes.
pub open spec fn page_slots_of(slots: u32) -> int {
    clamped(slots as int, 1, 0xFFFF)
}

/// A page timeout within what the command takes, in 0.625 ms slots.
pub fn page_slots(slots: u32) -> (s: u16)
    ensures
        s == page_slots_of(slots),
{
    if slots < 1 {
        1
    } else if slots > 0xFFFF {
        0xFFFF
    } else {
        slots as u16
    }
}

/// The duration of an inquiry within what the command takes.
pub open spec fn inquiry_units_of(units: u8) -> int {
    clamped(units as int, 1, 48)
}

/// The duration of an inquiry within what the command takes, in 1.28 s units.
pub fn inquiry_units(units: u8) -> (u: u8)
    ensures
        u == inquiry_units_of(units),
{
    if units < 1 {
        1
    } else if units > 48 {
        48
    } else {
        units
    }
}

/// The general inquiry access code, least significant byte first.
pub const GENERAL_INQUIRY: [u8; 3] = [0x33, 0x8B, 0x9E];

/// The parameters of an inquiry with as many answers as there are.
pub open spec fn inquiry_data(units: u8) -> Seq<u8> {
    seq![0x33u8, 0x8Bu8, 0x9Eu8, units, 0x00u8]
}

/// The parameters of an inquiry with as many answers as there are.
pub fn inquiry_params(units: u8) -> (v: Vec<u8>)
    ensures
        v@ == inquiry_data(units),
{
    let code: [u8; 3] = GENERAL_INQUIRY;
    let mut v: Vec<u8> = Vec::new();
    push_all(&mut v, code.as_slice());
    v.push(units);
    v.push(0x00);
    assert(v@ =~= seq![0x33u8, 0x8Bu8, 0x9Eu8, units, 0x00u8]);
    v
}

/// Whether an inquiry goes on, and how it ended where it does not.
#[derive(Debug, Clone, PartialEq, Eq)]
pub enum InquiryVerdict {
    /// Nothing new.
    Waiting,
    /// This many more devices were found.
    Found(usize),
    /// The inquiry ran to its end.
    Over,
    /// The controller refused it.
    Refused(Error),
}

/// An inquiry and what answered so far. A device answers once in each cycle, so the
/// same one arrives repeatedly, with varying signal strength.
#[derive(Debug)]
pub struct Inquiry {
    pub found: Vec<InquiryResult>,
}

/// An [`InquiryVerdict`] by what it says.
pub enum Inquired {
    Waiting,
    Found(nat),
    Over,
    Refused(u8),
}

/// What was found once an event is taken into account, and what the event comes to.
pub open spec fn inquired(found: Seq<InquiryResult>, event: Event) -> (
    Seq<InquiryResult>,
    Inquired,
) {
    match event {
        Event::InquiryResults(r) => (found + r@, Inquired::Found(r@.len())),
        Event::InquiryComplete { .. } => (found, Inquired::Over),
        Event::CommandStatus { status, opcode } => if opcode == Opcode(Opcode::INQUIRY) && status
            != 0 {
            (found, Inquired::Refused(status))
        } else {
            (found, Inquired::Waiting)
        },
        _ => (found, Inquired::Waiting),
    }
}

impl Inquiry {
    /// Begin an inquiry.
    pub fn new() -> (i: Inquiry)
        ensures
            i.found@ == Seq::<InquiryResult>::empty(),
    {
        Inquiry { found: Vec::new() }
    }

    /// Take one event into account: results are kept, all of them and in order.
    pub fn step(&mut self, event: Event) -> (v: InquiryVerdict)
        ensures
            final(self).found@ == inquired(old(self).found@, event).0,
            match inquired(old(self).found@, event).1 {
                Inquired::Waiting => v == InquiryVerdict::Waiting,
                Inquired::Found(n) => v matches InquiryVerdict::Found(m) && m == n,
                Inquired::Over => v == InquiryVerdict::Over,
                Inquired::Refused(status) => v matches InquiryVerdict::Refused(e) && e@
                    == error::ErrorView::Protocol(
                    "inquiry refused with status 0x"@ + text::hex2(status),
                ),
            },
    {
        match event {
            Event::InquiryResults(r) => {
                let n: usize = r.len();
                let mut r = r;
                self.found.append(&mut r);
                InquiryVerdict::Found(n)
            },
            Event::InquiryComplete { .. } => InquiryVerdict::Over,
            Event::CommandStatus { status, opcode } => {
                if opcode.0 == Opcode::INQUIRY && status != 0 {
                    InquiryVerdict::Refused(
                        Error::Protocol(with_byte("inquiry refused with status 0x", status)),
                    )
                } else {
                    InquiryVerdict::Waiting
                }
            },
            _ => InquiryVerdict::Waiting,
        }
    }
}

/// The status of a command, or `0xFF` where it came without one.
pub open spec fn status_or_ff(params: Seq<u8>) -> u8 {
    match hci::status_of(params) {
        Some(s) => s,
        None => 0xFF,
    }
}

/// Read the status of a command.
fn read_status(c: &CommandComplete) -> (s: u8)
    ensures
        s == status_or_ff(c.params@),
{
    match c.status() {
        Some(s) => s,
        None => 0xFF,
    }
}

/// Whether the radio accepted a scan mask: bit 0 answers inquiries, bit 1 pages.
///
/// Page scan alone is the right setting for a dongle that serves controllers: it
/// accepts its own calling home without showing itself to every phone in the room.
pub fn scan_enabled(mask: u8, c: &CommandComplete) -> (r: Result<()>)
    ensures
        match r {
            Ok(()) => hci::status_of(c.params@) == Some(0u8),
            Err(e) => hci::status_of(c.params@) != Some(0u8) && e@ == error::ErrorView::Protocol(
                "scan enable 0x"@ + text::hex2(mask) + " refused: status 0x"@ + text::hex2(
                    status_or_ff(c.params@),
                ),
            ),
        },
{
    if c.succeeded() {
        return Ok(());
    }
    let mut m = with_byte("scan enable 0x", mask);
    push_text(&mut m, " refused: status 0x");
    push_hex2(&mut m, read_status(c));
    Err(Error::Protocol(m))
}

/// What the scan state is, where the answer to the question tells it.
pub open spec fn scan_state_of(params: Seq<u8>) -> Option<u8> {
    if params.len() >= 2 && params[0] == 0 {
        Some(params[1])
    } else {
        None
    }
}

/// What the scan state actually is, out of the answer to the question.
pub fn scan_state(c: &CommandComplete) -> (r: Result<u8>)
    ensures
        match r {
            Ok(mask) => scan_state_of(c.params@) == Some(mask),
            Err(e) => scan_state_of(c.params@) is None && e@
                == error::ErrorView::Protocol(
                "read scan enable failed: status 0x"@ + text::hex2(status_or_ff(c.params@)),
            ),
        },
{
    if c.params.len() >= 2 && c.params[0] == 0 {
        return Ok(c.params[1]);
    }
    Err(Error::Protocol(with_byte("read scan enable failed: status 0x", read_status(c))))
}

/// The parameters that accept a call.
pub open spec fn accept_data(addr: Seq<u8>) -> Seq<u8> {
    addr + seq![0x01u8]
}

/// The parameters that accept a call. The role stays: asking a calling controller to
/// give up being master is a procedure that it does not complete.
pub fn accept_params(addr: [u8; 6]) -> (v: Vec<u8>)
    ensures
        v@ == accept_data(addr@),
{
    let mut v: Vec<u8> = vstd::slice::slice_to_vec(addr.as_slice());
    v.push(0x01);
    assert(v@ =~= addr@ + seq![0x01u8]);
    v
}

/// The parameters that ask a device for its name.
pub open spec fn name_data(addr: Seq<u8>, psrm: u8, clock_offset: u16) -> Seq<u8> {
    addr + seq![psrm, 0x00u8] + bytes::le16(clock_offset)
}

/// The parameters that ask a device for its name.
pub fn name_params(addr: [u8; 6], psrm: u8, clock_offset: u16) -> (v: Vec<u8>)
    ensures
        v@ == name_data(addr@, psrm, clock_offset),
{
    let mut v: Vec<u8> = vstd::slice::slice_to_vec(addr.as_slice());
    v.push(psrm);
    v.push(0x00);
    assert(v@ =~= addr@ + seq![psrm, 0x00u8]);
    push16(&mut v, clock_offset);
    v
}

/// The answer of one device to the question for its name, where an event is that.
pub open spec fn name_answer(addr: Seq<u8>, e: hci::EventView) -> Option<
    core::result::Result<Seq<char>, error::ErrorView>,
> {
    match e {
        hci::EventView::RemoteNameComplete { status, address, name } if address == addr => Some(
            if status == 0 {
                Ok(name)
            } else {
                Err(
                    error::ErrorView::Protocol(
                        "name request failed: 0x"@ + text::hex2(status),
                    ),
                )
            },
        ),
        _ => None,
    }
}

/// The answer of one device to the question for its name, where an event is that.
pub fn name_of(addr: [u8; 6], event: Event) -> (r: Option<Result<String>>)
    ensures
        match r {
            Some(Ok(n)) => name_answer(addr@, event@) == Some(
                Ok::<Seq<char>, error::ErrorView>(n@),
            ),
            Some(Err(e)) => name_answer(addr@, event@) == Some(
                Err::<Seq<char>, error::ErrorView>(e@),
            ),
            None => name_answer(addr@, event@) is None,
        },
{
    match event {
        Event::RemoteNameComplete { status, address, name } => {
            if !same_address(&address, &addr) {
                return None;
            }
            if status == 0 {
                Some(Ok(name))
            } else {
                Some(Err(Error::Protocol(with_byte("name request failed: 0x", status))))
            }
        },
        _ => None,
    }
}

/// The parameters that start encryption from a key agreed out of band. The key goes
/// out least significant byte first.
pub open spec fn encryption_params_data(
    conn_handle: u16,
    rand: u64,
    ediv: u16,
    ltk: Seq<u8>,
) -> Seq<u8> {
    bytes::le16(conn_handle) + bytes::le64(rand) + bytes::le16(ediv) + bytes::reversed(ltk)
}

/// Build the parameters that start encryption.
pub fn encryption_params(conn_handle: u16, rand: u64, ediv: u16, ltk: &[u8; 16]) -> (v: Vec<u8>)
    ensures
        v@ == encryption_params_data(conn_handle, rand, ediv, ltk@),
{
    let mut v: Vec<u8> = Vec::new();
    push16(&mut v, conn_handle);
    assert(v@ =~= bytes::le16(conn_handle));
    push64(&mut v, rand);
    push16(&mut v, ediv);
    let ghost head = v@;
    let mut i: usize = 16;
    assert(v@ =~= head + bytes::reversed(ltk@).take(0));
    while i > 0
        invariant
            i <= 16,
            v@ == head + bytes::reversed(ltk@).take(16 - i),
        decreases i,
    {
        i -= 1;
        v.push(ltk[i]);
        assert(v@ =~= head + bytes::reversed(ltk@).take(16 - i));
    }
    assert(bytes::reversed(ltk@).take(16) =~= bytes::reversed(ltk@));
    v
}

/// How the parameters of connecting stand on the wire: how the radio scans meanwhile, whom it
/// connects to, back to front, and the interval, the latency and the timeout of the link.
pub proof fn connecting_stands_by_its_fields(
    a: Seq<u8>,
    address_type: u8,
    shortest: u16,
    longest: u16,
)
    requires
        a.len() == 6,
    ensures
        ({
            let p = connect_params_data(a, address_type, shortest, longest);
            &&& p.len() == 25
            &&& bytes::u16_at(p, 0) == 0x60 && bytes::u16_at(p, 2) == 0x30
            &&& p[4] == 0 && p[5] == address_type
            &&& p.subrange(6, 12) == seq![a[5], a[4], a[3], a[2], a[1], a[0]]
            &&& p[12] == 0
            &&& bytes::u16_at(p, 13) == shortest && bytes::u16_at(p, 15) == longest
            &&& bytes::u16_at(p, 17) == 0
            &&& bytes::u16_at(p, 19) == 500
            &&& bytes::u16_at(p, 21) == 0 && bytes::u16_at(p, 23) == 0
        }),
{
    let p = connect_params_data(a, address_type, shortest, longest);
    bytes::le16_round_trips(shortest);
    bytes::le16_round_trips(longest);
    assert(p.subrange(6, 12) =~= seq![a[5], a[4], a[3], a[2], a[1], a[0]]);
    let s = bytes::le16(shortest);
    let l = bytes::le16(longest);
    assert(p[13] == s[0] && p[14] == s[1] && p[15] == l[0] && p[16] == l[1]);
    assert(p[0] == 0x60 && p[1] == 0 && p[2] == 0x30 && p[3] == 0);
    assert(p[17] == 0 && p[18] == 0 && p[19] == 0xF4 && p[20] == 1);
    assert(p[21] == 0 && p[22] == 0 && p[23] == 0 && p[24] == 0);
}

/// A link is first asked for at an interval below the official minimum of 7.5 ms, and then at
/// it; every interval that is asked for begins no later than it ends, and there is no third
/// attempt.
pub proof fn the_second_attempt_asks_for_what_is_allowed(attempt: u8)
    ensures
        intervals_of(attempt) is Some <==> attempt < 2,
        intervals_of(attempt) matches Some(i) ==> 0 < i.0 <= i.1,
        (intervals_of(0)->0).0 * 125 == 500,
        (intervals_of(1)->0).0 * 125 == 750,
        (intervals_of(0)->0).1 == (intervals_of(1)->0).0,
        (intervals_of(1)->0).1 == 2 * (intervals_of(1)->0).0,
{
}

/// A scan is passive, listens all the time, and is switched on by a one; nothing is hidden
/// from it.
pub proof fn a_scan_always_listens(on: bool)
    ensures
        ({
            let p = scan_params_data();
            &&& p.len() == 7
            &&& p[0] == 0
            &&& bytes::u16_at(p, 1) == bytes::u16_at(p, 3)
            &&& bytes::u16_at(p, 1) == 0x30
            &&& p[5] == 0 && p[6] == 0
        }),
        scan_switch_data(on).len() == 2,
        scan_switch_data(on)[0] == 1 <==> on,
        scan_switch_data(on)[0] == 0 <==> !on,
        scan_switch_data(on)[1] == 0,
{
    let p = scan_params_data();
    assert(p[1] == 0x30 && p[2] == 0 && p[3] == 0x30 && p[4] == 0);
}

/// What names a link names it by its handle, low byte first: what ends it, for the reason that
/// the user ended it, and what encrypts it, with a number, a diversifier, and the key back to
/// front.
pub proof fn links_are_named_by_their_handles(
    handle: u16,
    rand: u64,
    ediv: u16,
    key: Seq<u8>,
    i: int,
)
    requires
        key.len() == 16,
    ensures
        disconnect_data(handle) == seq![(handle % 256) as u8, (handle / 256) as u8, 0x13u8],
        ({
            let p = encryption_params_data(handle, rand, ediv, key);
            &&& p.len() == 28
            &&& bytes::u16_at(p, 0) == handle
            &&& p.subrange(2, 10) == bytes::le64(rand)
            &&& bytes::u16_at(p, 10) == ediv
            &&& 0 <= i < 16 ==> p[12 + i] == key[15 - i]
        }),
{
    assert(disconnect_data(handle) =~= seq![
        (handle % 256) as u8,
        (handle / 256) as u8,
        0x13u8,
    ]);
    let p = encryption_params_data(handle, rand, ediv, key);
    bytes::le16_round_trips(handle);
    bytes::le16_round_trips(ediv);
    bytes::the_low_byte_comes_first(handle, 0, rand);
    assert(p[0] == bytes::le16(handle)[0] && p[1] == bytes::le16(handle)[1]);
    assert(p.subrange(2, 10) =~= bytes::le64(rand));
    assert(p[10] == bytes::le16(ediv)[0] && p[11] == bytes::le16(ediv)[1]);
    assert(0 <= i < 16 ==> p[12 + i] == bytes::reversed(key)[i]);
}

/// What names a device names it by its address as it came: what accepts its call, without a
/// switch of roles, and what asks for its name.
pub proof fn devices_are_named_by_their_addresses(addr: Seq<u8>, psrm: u8, clock_offset: u16)
    requires
        addr.len() == 6,
    ensures
        accept_data(addr).len() == 7,
        accept_data(addr).take(6) == addr,
        accept_data(addr)[6] == 1,
        ({
            let p = name_data(addr, psrm, clock_offset);
            &&& p.len() == 10
            &&& p.take(6) == addr
            &&& p[6] == psrm && p[7] == 0
            &&& bytes::u16_at(p, 8) == clock_offset
        }),
{
    assert(accept_data(addr).take(6) =~= addr);
    let p = name_data(addr, psrm, clock_offset);
    assert(p.take(6) =~= addr);
    bytes::le16_round_trips(clock_offset);
    let c = bytes::le16(clock_offset);
    assert(p[8] == c[0] && p[9] == c[1]);
}

/// An inquiry is a general one, whose access code is 0x9E8B33, lasts as long as it says, and
/// takes as many answers as come.
pub proof fn an_inquiry_is_a_general_one(units: u8)
    ensures
        ({
            let p = inquiry_data(units);
            &&& p.len() == 5
            &&& p[0] + 256 * p[1] + 0x1_0000 * p[2] == 0x9E8B33
            &&& p[3] == units
            &&& p[4] == 0
        }),
        GENERAL_INQUIRY@ == inquiry_data(units).take(3),
{
    assert(GENERAL_INQUIRY@ =~= inquiry_data(units).take(3));
}

/// A time is brought within what its command takes, and one that is there already is kept; a
/// longer time never becomes the shorter one.
pub proof fn times_are_brought_into_range(slots: u32, more_slots: u32, units: u8, more_units: u8)
    ensures
        1 <= page_slots_of(slots) <= 0xFFFF,
        1 <= slots <= 0xFFFF ==> page_slots_of(slots) == slots,
        slots <= more_slots ==> page_slots_of(slots) <= page_slots_of(more_slots),
        1 <= inquiry_units_of(units) <= 48,
        1 <= units <= 48 ==> inquiry_units_of(units) == units,
        units <= more_units ==> inquiry_units_of(units) <= inquiry_units_of(more_units),
{
}

/// A controller supports BR/EDR unless its features say that it does not, which is the sixth
/// bit of the fifth byte behind the status; no other bit matters.
pub proof fn bredr_is_told_by_one_bit(before: Seq<u8>, low: u8, off: bool, high: u8, after: Seq<u8>)
    requires
        before.len() == 5,
        low < 32,
        high < 4,
        after.len() >= 3,
    ensures
        bredr_of(
            before + seq![
                (low + (if off {
                    32int
                } else {
                    0
                }) + 64 * high) as u8,
            ] + after,
        ) == Some(!off),
        bredr_of(before) is None,
{
    let b = (low + (if off {
        32int
    } else {
        0
    }) + 64 * high) as u8;
    let p = before + seq![b] + after;
    assert(p[5] == b);
    assert(b & 0x20 == 32 * ((b / 32) % 2)) by (bit_vector);
    assert((b / 32) % 2 == if off {
        1int
    } else {
        0
    });
}

/// The dongle's own address is told only by a success, behind its status and back to front.
pub proof fn an_own_address_is_read(status: u8, a: Seq<u8>, more: Seq<u8>)
    requires
        a.len() == 6,
    ensures
        own_address_of(seq![status, a[5], a[4], a[3], a[2], a[1], a[0]] + more) == if status == 0 {
            Some(a)
        } else {
            None
        },
        own_address_of(seq![0u8, a[5], a[4], a[3], a[2], a[1]]) is None,
{
    let p = seq![status, a[5], a[4], a[3], a[2], a[1], a[0]] + more;
    assert(p[0] == status);
    assert(bytes::reversed(p.subrange(1, 7)) =~= a);
}

/// The scan state is told only by a success, behind its status.
pub proof fn a_scan_state_is_read(status: u8, mask: u8, more: Seq<u8>)
    ensures
        scan_state_of(seq![status, mask] + more) == if status == 0 {
            Some(mask)
        } else {
            None
        },
        scan_state_of(seq![status]) is None,
        status_or_ff(seq![status] + more) == status,
        status_or_ff(seq![]) == 0xFF,
{
    let p = seq![status, mask] + more;
    assert(p[0] == status && p[1] == mask);
    assert((seq![status] + more)[0] == status);
}

/// A command succeeded exactly where it came back with a status of zero.
pub proof fn a_status_of_zero_is_success(words: Seq<char>, status: u8, more: Seq<u8>)
    ensures
        checked(words, seq![status] + more) is Ok <==> status == 0,
        checked(words, seq![]) is Err,
{
    assert((seq![status] + more)[0] == status);
}

/// A completion is that of the command that it names, and of no other.
pub proof fn a_completion_names_its_command(slots: u8, opcode: u16, asked: u16, params: Seq<u8>)
    ensures
        is_completion(
            hci::EventView::CommandComplete(
                hci::CommandCompleteView {
                    num_hci_command_packets: slots,
                    opcode: Opcode(opcode),
                    params,
                },
            ),
            asked,
        ) <==> opcode == asked,
{
}

/// The dongle is brought up in four stages, each by its own command: it is reset, told to
/// report every event, told to report the LE events, and asked for its address. Each stage
/// leads to the next where it succeeds.
pub proof fn the_stages_follow_each_other(attempt: u8, slots: u8, opcode: u16, more: Seq<u8>)
    ensures
        ({
            let done = Ok::<hci::CommandCompleteView, error::ErrorView>(
                hci::CommandCompleteView {
                    num_hci_command_packets: slots,
                    opcode: Opcode(opcode),
                    params: seq![0u8] + more,
                },
            );
            let reset = InitStage::Reset { attempt };
            &&& reset.opcode() == 0x0C03 && reset.params().len() == 0
            &&& reset.after(done) == InitNextView::Go(InitStage::EventMask)
            &&& InitStage::EventMask.opcode() == 0x0C01
            &&& InitStage::EventMask.after(done) == InitNextView::Go(InitStage::LeEventMask)
            &&& InitStage::LeEventMask.opcode() == 0x2001
            &&& InitStage::LeEventMask.after(done) == InitNextView::Go(InitStage::Address)
            &&& InitStage::Address.opcode() == 0x1009 && InitStage::Address.params().len() == 0
            &&& InitStage::Address.after(done) == InitNextView::Up(own_address_of(seq![0u8] + more))
        }),
{
    assert((seq![0u8] + more)[0] == 0);
}

/// A reset that fails is tried again, two times; a mask that cannot be set is fatal; and an
/// address that cannot be read is not.
pub proof fn only_a_reset_is_tried_again(
    attempt: u8,
    r: core::result::Result<hci::CommandCompleteView, error::ErrorView>,
)
    requires
        r matches Ok(c) ==> hci::status_of(c.params) != Some(0u8),
        attempt >= 1,
    ensures
        (InitStage::Reset { attempt }).after(r) == InitNextView::Go(
            InitStage::Reset { attempt: (attempt + 1) as u8 },
        ) <==> attempt < 3,
        (InitStage::Reset { attempt }).after(r) is Failed <==> attempt >= 3,
        InitStage::EventMask.after(r) is Failed,
        InitStage::LeEventMask.after(r) is Failed,
        InitStage::Address.after(r) == InitNextView::Up(None),
{
}

/// The masks let through what the stack reads: every event but those of the two highest bits,
/// and of the LE events the first eight.
pub proof fn the_masks_let_everything_through(i: int)
    ensures
        InitStage::EventMask.params().len() == 8,
        0 <= i < 7 ==> InitStage::EventMask.params()[i] == 0xFF,
        InitStage::EventMask.params()[7] == 0x3F,
        InitStage::LeEventMask.params().len() == 8,
        InitStage::LeEventMask.params()[0] == 0xFF,
        1 <= i < 8 ==> InitStage::LeEventMask.params()[i] == 0,
{
}

/// Connecting ends by the report that says so, with what it says; a command that is refused,
/// and too many reads, end it too and are cancelled, and a failed report is not. Everything
/// else is waited through.
pub proof fn connecting_ends_by_its_report(
    left: u8,
    status: u8,
    opcode: u16,
    handle: u16,
    interval: u16,
    timeout: u16,
    e: hci::EventView,
)
    requires
        e !is CommandStatus,
        e !is LeConnectionComplete,
    ensures
        ({
            let told = connecting(
                left,
                Some(
                    hci::EventView::LeConnectionComplete {
                        status,
                        conn_handle: handle,
                        interval,
                        supervision_timeout: timeout,
                    },
                ),
            );
            let refused = connecting(
                left,
                Some(hci::EventView::CommandStatus { status, opcode: Opcode(opcode) }),
            );
            &&& if status == 0 {
                told == LeVerdictView::Connected(
                    LinkParams { conn_handle: handle, interval, supervision_timeout: timeout },
                )
            } else {
                told matches LeVerdictView::Failed { cancel, .. } && !cancel
            }
            &&& status != 0 && opcode == 0x200D ==> (refused matches
                LeVerdictView::Failed { cancel, .. } && cancel)
            &&& status == 0 || opcode != 0x200D ==> refused == connecting(left, None)
            &&& connecting(left, Some(e)) == connecting(left, None)
            &&& connecting(left, None) is Waiting <==> left > 1
            &&& left <= 1 ==> (connecting(left, None) matches LeVerdictView::Failed { cancel, .. }
                && cancel)
        }),
{
}

/// The answer to the question for a name is that of the device that was asked.
pub proof fn a_name_is_told_by_its_device(
    addr: Seq<u8>,
    address: Seq<u8>,
    status: u8,
    name: Seq<char>,
)
    ensures
        ({
            let r = name_answer(
                addr,
                hci::EventView::RemoteNameComplete { status, address, name },
            );
            &&& r is Some <==> address == addr
            &&& address == addr && status == 0 ==> r == Some(Ok::<Seq<char>, error::ErrorView>(name))
            &&& address == addr && status != 0 ==> r->0 is Err
        }),
{
}

/// Bytes are listed in order, two digits each, with a comma and a space between any two.
pub proof fn bytes_are_listed_in_order(a: Seq<u8>, b: u8)
    ensures
        listed_bytes(seq![]) == Seq::<char>::empty(),
        listed_bytes(seq![b]) == text::hex2(b),
        a.len() > 0 ==> listed_bytes(a + seq![b]) == listed_bytes(a) + seq![',', ' '] + text::hex2(b),
{
    reveal_strlit(", ");
    assert((a + seq![b]).drop_last() =~= a);
    assert((a + seq![b]).last() == b);
    assert(", "@ =~= seq![',', ' ']);
}

/// Everything that answers an inquiry is kept, in order, and counted; nothing else adds to what
/// was found. An inquiry is over where that is reported, and refused where its own command
/// failed; another command's failure, and its own success, are passed over.
pub proof fn every_answer_is_kept(
    found: Seq<InquiryResult>,
    event: Event,
    status: u8,
    opcode: u16,
)
    ensures
        event matches Event::InquiryResults(r) ==> {
            &&& inquired(found, event).0.take(found.len() as int) == found
            &&& inquired(found, event).0.skip(found.len() as int) == r@
            &&& inquired(found, event).1 == Inquired::Found(r@.len())
        },
        !(event is InquiryResults) ==> inquired(found, event).0 == found,
        inquired(found, event).1 == Inquired::Over <==> event is InquiryComplete,
        inquired(found, Event::CommandStatus { status, opcode: Opcode(opcode) }).1 == if opcode
            == 0x0401 && status != 0 {
            Inquired::Refused(status)
        } else {
            Inquired::Waiting
        },
{
    if let Event::InquiryResults(r) = event {
        assert((found + r@).take(found.len() as int) =~= found);
        assert((found + r@).skip(found.len() as int) =~= r@);
    }
}

/// A supervision timeout of a second is a thousand milliseconds, and timeouts add up.
pub proof fn timeouts_are_counted_in_milliseconds(seconds: u16, a: u16, b: u16)
    requires
        100 * seconds <= u16::MAX,
        a + b <= u16::MAX,
    ensures
        timeout_of((100 * seconds) as u16) == 1000 * seconds,
        timeout_of((a + b) as u16) == timeout_of(a) + timeout_of(b),
{
}

} // verus!
