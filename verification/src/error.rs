//! What can go wrong.
use vstd::prelude::*;
use crate::text;
use crate::text::{push_hex4, push_text};

verus! {

/// Why the USB layer refused an operation.
#[derive(Debug, Clone, Copy, PartialEq, Eq, Structural)]
pub enum UsbFault {
    Io,
    InvalidParam,
    Access,
    NoDevice,
    NotFound,
    Busy,
    Timeout,
    Overflow,
    Pipe,
    Interrupted,
    NoMem,
    NotSupported,
    BadDescriptor,
    Other,
}

impl UsbFault {
    /// What the USB layer calls a fault.
    pub open spec fn words(self) -> Seq<char> {
        match self {
            UsbFault::Io => "Input/Output Error"@,
            UsbFault::InvalidParam => "Invalid parameter"@,
            UsbFault::Access => "Access denied (insufficient permissions)"@,
            UsbFault::NoDevice => "No such device (it may have been disconnected)"@,
            UsbFault::NotFound => "Entity not found"@,
            UsbFault::Busy => "Resource busy"@,
            UsbFault::Timeout => "Operation timed out"@,
            UsbFault::Overflow => "Overflow"@,
            UsbFault::Pipe => "Pipe error"@,
            UsbFault::Interrupted => "System call interrupted (perhaps due to signal)"@,
            UsbFault::NoMem => "Insufficient memory"@,
            UsbFault::NotSupported => "Operation not supported or unimplemented on this platform"@,
            UsbFault::BadDescriptor => "Malformed descriptor"@,
            UsbFault::Other => "Other error"@,
        }
    }
}

/// The words of `rusb::Error` for a fault, by its `Display`: one fixed sentence for each
/// of its variants.
#[verifier::external_body]
fn fault_text(f: UsbFault) -> (s: String)
    ensures
        s@ == f.words(),
{
    match f {
        UsbFault::Io => rusb::Error::Io,
        UsbFault::InvalidParam => rusb::Error::InvalidParam,
        UsbFault::Access => rusb::Error::Access,
        UsbFault::NoDevice => rusb::Error::NoDevice,
        UsbFault::NotFound => rusb::Error::NotFound,
        UsbFault::Busy => rusb::Error::Busy,
        UsbFault::Timeout => rusb::Error::Timeout,
        UsbFault::Overflow => rusb::Error::Overflow,
        UsbFault::Pipe => rusb::Error::Pipe,
        UsbFault::Interrupted => rusb::Error::Interrupted,
        UsbFault::NoMem => rusb::Error::NoMem,
        UsbFault::NotSupported => rusb::Error::NotSupported,
        UsbFault::BadDescriptor => rusb::Error::BadDescriptor,
        UsbFault::Other => rusb::Error::Other }.to_string()
}

/// Why an operation on the dongle failed.
#[derive(Debug, Clone, PartialEq, Eq)]
pub enum Error {
    /// No USB device with the requested vendor and product, or it is not bound to
    /// the generic USB driver.
    NotFound { vid: u16, pid: u16 },
    /// The device is present and bound, but something else holds it.
    ///
    /// Kept apart from `NotFound` because the two need completely different
    /// responses from a user: a claimed dongle is not helped by binding it again.
    Busy { vid: u16, pid: u16, source: UsbFault },
    /// The USB layer refused an operation.
    Usb(UsbFault),
    /// The dongle does not expose an endpoint that it must have.
    NoEndpoint(String),
    /// A reply arrived but could not be decoded.
    Protocol(String),
}

/// The result of an operation on the dongle.
pub type Result<T> = core::result::Result<T, Error>;

/// An [`Error`] with its text as characters.
#[verifier::ext_equal]
pub enum ErrorView {
    NotFound { vid: u16, pid: u16 },
    Busy { vid: u16, pid: u16, source: UsbFault },
    Usb(UsbFault),
    NoEndpoint(Seq<char>),
    Protocol(Seq<char>),
}

impl View for Error {
    type V = ErrorView;

    open spec fn view(&self) -> ErrorView {
        match self {
            Error::NotFound { vid, pid } => ErrorView::NotFound { vid: *vid, pid: *pid },
            Error::Busy { vid, pid, source } => ErrorView::Busy {
                vid: *vid,
                pid: *pid,
                source: *source,
            },
            Error::Usb(f) => ErrorView::Usb(*f),
            Error::NoEndpoint(s) => ErrorView::NoEndpoint(s@),
            Error::Protocol(s) => ErrorView::Protocol(s@),
        }
    }
}

/// What a user is told about an error.
pub open spec fn error_text(e: ErrorView) -> Seq<char> {
    match e {
        ErrorView::NotFound { vid, pid } => "no USB device "@ + text::hex4(vid) + ":"@ + text::hex4(pid)
            + " (is it bound to WinUSB via Zadig?)"@,
        ErrorView::Busy { vid, pid, source } => "dongle "@ + text::hex4(vid) + ":"@ + text::hex4(pid)
            + " is present and WinUSB-bound but already in use ("@ + source.words()
            + ") — another FlexInput instance, a jc2_*/bt_classic probe, or this app's other Bluetooth transport holds it"@,
        ErrorView::Usb(f) => "usb error: "@ + f.words(),
        ErrorView::NoEndpoint(what) => "dongle exposes no "@ + what + " endpoint"@,
        ErrorView::Protocol(m) => "protocol error: "@ + m,
    }
}

impl Error {
    /// The error as a sentence.
    pub fn to_text(&self) -> (out: String)
        ensures
            out@ == error_text(self@),
    {
        let mut out = String::new();
        match self {
            Error::NotFound { vid, pid } => {
                push_text(&mut out, "no USB device ");
                push_hex4(&mut out, *vid);
                push_text(&mut out, ":");
                push_hex4(&mut out, *pid);
                push_text(&mut out, " (is it bound to WinUSB via Zadig?)");
            },
            Error::Busy { vid, pid, source } => {
                push_text(&mut out, "dongle ");
                push_hex4(&mut out, *vid);
                push_text(&mut out, ":");
                push_hex4(&mut out, *pid);
                push_text(&mut out, " is present and WinUSB-bound but already in use (");
                let words = fault_text(*source);
                push_text(&mut out, words.as_str());
                push_text(
                    &mut out,
                    ") — another FlexInput instance, a jc2_*/bt_classic probe, or this app's other Bluetooth transport holds it",
                );
            },
            Error::Usb(f) => {
                let words = fault_text(*f);
                push_text(&mut out, "usb error: ");
                push_text(&mut out, words.as_str());
            },
            Error::NoEndpoint(what) => {
                push_text(&mut out, "dongle exposes no ");
                push_text(&mut out, what.as_str());
                push_text(&mut out, " endpoint");
            },
            Error::Protocol(m) => {
                push_text(&mut out, "protocol error: ");
                push_text(&mut out, m.as_str());
            },
        }
        assert(out@ =~= error_text(self@));
        out
    }
}

/// What a user is told about a dongle names it: its vendor and its product in four digits each,
/// with a colon between them.
pub proof fn an_error_names_its_dongle(vid: u16, pid: u16, source: UsbFault)
    ensures
        ({
            let name = text::hex4(vid) + seq![':'] + text::hex4(pid);
            &&& text::holds_text(error_text(ErrorView::NotFound { vid, pid }), name)
            &&& text::holds_text(error_text(ErrorView::Busy { vid, pid, source }), name)
        }),
{
    reveal_strlit(":");
    let name = text::hex4(vid) + seq![':'] + text::hex4(pid);
    let gone = error_text(ErrorView::NotFound { vid, pid });
    let busy = error_text(ErrorView::Busy { vid, pid, source });
    let last = " (is it bound to WinUSB via Zadig?)"@;
    let middle = " is present and WinUSB-bound but already in use ("@;
    let end = ") — another FlexInput instance, a jc2_*/bt_classic probe, or this app's other Bluetooth transport holds it"@;
    assert(gone =~= "no USB device "@ + name + last);
    text::a_text_is_held_between_two("no USB device "@, name, last, gone);
    let after = middle + source.words() + end;
    assert(busy =~= "dongle "@ + name + after);
    text::a_text_is_held_between_two("dongle "@, name, after, busy);
}

/// What a user is told about a failure holds whatever explains it: the words of the USB layer,
/// the endpoint that is missing, or what could not be decoded.
pub proof fn an_error_says_why(vid: u16, pid: u16, source: UsbFault, what: Seq<char>)
    ensures
        text::holds_text(error_text(ErrorView::Busy { vid, pid, source }), source.words()),
        text::holds_text(error_text(ErrorView::Usb(source)), source.words()),
        text::holds_text(error_text(ErrorView::NoEndpoint(what)), what),
        text::holds_text(error_text(ErrorView::Protocol(what)), what),
{
    let none = Seq::<char>::empty();
    let busy = error_text(ErrorView::Busy { vid, pid, source });
    let front = "dongle "@ + text::hex4(vid) + ":"@ + text::hex4(pid)
        + " is present and WinUSB-bound but already in use ("@;
    let end = ") — another FlexInput instance, a jc2_*/bt_classic probe, or this app's other Bluetooth transport holds it"@;
    assert(busy =~= front + source.words() + end);
    text::a_text_is_held_between_two(front, source.words(), end, busy);
    text::a_text_is_held_between_two("usb error: "@, source.words(), none, busy);
    assert("usb error: "@ + source.words() + none =~= error_text(ErrorView::Usb(source)));
    text::a_text_is_held_between_two("dongle exposes no "@, what, " endpoint"@, busy);
    text::a_text_is_held_between_two("protocol error: "@, what, none, busy);
    assert("protocol error: "@ + what + none =~= error_text(ErrorView::Protocol(what)));
}

} // verus!
