//! Bringing up L2CAP channels on a BR/EDR link.
//!
//! Each exchange is a state that is told of one inbound packet at a time and answers
//! with what to do: packets to send, remarks for a log, and whether the exchange is
//! over. Whoever drives it reads the packets, does what it is told, and watches the
//! clock.
use vstd::prelude::*;
use crate::acl;
use crate::acl::{encode_acl_pb, AclPacket, PB_FIRST_FLUSHABLE};
use crate::error;
use crate::error::Error;
use crate::l2cap;
use crate::l2cap::{
    configure_request, configure_response, connection_request, connection_response, encode_signal,
    parse_configure_request, parse_configure_response_full,
    parse_connection_request, parse_connection_response, parse_signal, Channel, Signal,
    CID_SIGNALLING, PSM_HID_CONTROL, PSM_HID_INTERRUPT, SIG_CONFIGURE_REQUEST,
    SIG_CONFIGURE_RESPONSE, SIG_CONNECTION_REQUEST, SIG_CONNECTION_RESPONSE,
    SIG_DISCONNECTION_REQUEST, SIG_DISCONNECTION_RESPONSE,
};
use crate::text;
use crate::text::{push_hex4, push_text};

verus! {

/// One thing to do on behalf of an exchange.
#[derive(Debug, Clone, PartialEq, Eq)]
pub enum Action {
    /// Something worth telling whoever watches.
    Note(String),
    /// Send this packet; the exchange fails where that fails.
    Send(Vec<u8>),
    /// Send this packet; the exchange goes on where that fails.
    TrySend(Vec<u8>),
}

/// An [`Action`] with its text as characters and its packet as a sequence.
#[verifier::ext_equal]
pub enum ActionView {
    Note(Seq<char>),
    Send(Seq<u8>),
    TrySend(Seq<u8>),
}

impl View for Action {
    type V = ActionView;

    open spec fn view(&self) -> ActionView {
        match self {
            Action::Note(s) => ActionView::Note(s@),
            Action::Send(p) => ActionView::Send(p@),
            Action::TrySend(p) => ActionView::TrySend(p@),
        }
    }
}

/// The actions of `all`, each by its view.
pub open spec fn action_views(all: Seq<Action>) -> Seq<ActionView> {
    all.map_values(|a: Action| a@)
}

/// Adding an action adds its view.
proof fn action_views_push(all: Seq<Action>, a: Action)
    ensures
        action_views(all.push(a)) == action_views(all).push(a@),
{
    assert(action_views(all.push(a)) =~= action_views(all).push(a@));
}

/// `PSM 0x....` and then `tail`.
pub open spec fn psm_text(psm: u16, tail: Seq<char>) -> Seq<char> {
    "PSM 0x"@ + text::hex4(psm) + tail
}

/// A remark about a service.
pub(crate) fn psm_note(psm: u16, tail: &str) -> (s: String)
    ensures
        s@ == psm_text(psm, tail@),
{
    let mut s = String::new();
    push_text(&mut s, "PSM 0x");
    push_hex4(&mut s, psm);
    push_text(&mut s, tail);
    s
}

/// A remark about a service that ends in a 16-bit value.
pub(crate) fn psm_note_value(psm: u16, tail: &str, value: u16) -> (s: String)
    ensures
        s@ == psm_text(psm, tail@) + text::hex4(value),
{
    let mut s = psm_note(psm, tail);
    push_hex4(&mut s, value);
    s
}

/// The packet that carries a signalling command on a link.
pub open spec fn signal_packet(conn_handle: u16, code: u8, identifier: u8, data: Seq<u8>) -> Seq<
    u8,
> {
    acl::acl_frame(
        conn_handle,
        CID_SIGNALLING,
        l2cap::signal_frame(code, identifier, data),
        PB_FIRST_FLUSHABLE,
    )
}

/// Frame a signalling command for a link.
pub(crate) fn frame_signal(conn_handle: u16, code: u8, identifier: u8, data: &[u8]) -> (p: Vec<u8>)
    ensures
        p@ == signal_packet(conn_handle, code, identifier, data@),
{
    let s = encode_signal(code, identifier, data);
    encode_acl_pb(conn_handle, CID_SIGNALLING, s.as_slice(), PB_FIRST_FLUSHABLE)
}

/// The signalling command that an inbound packet carries for a link, where it does.
pub open spec fn signal_for(conn_handle: u16, p: acl::AclPacketView) -> Option<l2cap::SignalView> {
    if p.conn_handle == conn_handle && p.cid == CID_SIGNALLING {
        l2cap::signal_of(p.payload)
    } else {
        None
    }
}

/// Read the signalling command that an inbound packet carries for a link.
pub(crate) fn read_signal(conn_handle: u16, p: &AclPacket) -> (r: Option<Signal>)
    ensures
        match r {
            Some(s) => signal_for(conn_handle, p@) == Some(s@),
            None => signal_for(conn_handle, p@) is None,
        },
{
    if p.conn_handle != conn_handle || p.cid != CID_SIGNALLING {
        return None;
    }
    parse_signal(p.payload.as_slice())
}

/// The identifier after `i`.
pub open spec fn next_ident(i: u8) -> u8 {
    ((i + 1) % 256) as u8
}

/// Count an identifier on.
pub(crate) fn bump(i: u8) -> (n: u8)
    ensures
        n == next_ident(i),
{
    if i == 255 {
        0
    } else {
        i + 1
    }
}

/// The size that every configuration asks for: the L2CAP default. A HID report is far
/// smaller, and asking for more invites a renegotiation for no benefit.
pub const CHANNEL_MTU: u16 = 672;

/// Result of a connection response: the service is not supported.
pub const RESULT_NOT_SUPPORTED: u16 = 0x0002;

/// Whether an exchange goes on, and how it ended where it does not.
#[derive(Debug, Clone, PartialEq, Eq)]
pub enum Verdict {
    /// Nothing is decided yet.
    Waiting,
    /// Both channels are open.
    Ready { control: Channel, interrupt: Channel },
    /// The exchange failed.
    Failed(Error),
}

/// A [`Verdict`] with its error by its view.
#[verifier::ext_equal]
pub enum VerdictView {
    Waiting,
    Ready { control: Channel, interrupt: Channel },
    Failed(error::ErrorView),
}

impl View for Verdict {
    type V = VerdictView;

    open spec fn view(&self) -> VerdictView {
        match self {
            Verdict::Waiting => VerdictView::Waiting,
            Verdict::Ready { control, interrupt } => VerdictView::Ready {
                control: *control,
                interrupt: *interrupt,
            },
            Verdict::Failed(e) => VerdictView::Failed(e@),
        }
    }
}

/// One of the two channels while it comes up.
#[derive(Debug, Clone, Copy, PartialEq, Eq, Structural)]
pub struct Half {
    pub psm: u16,
    pub local_cid: u16,
    /// Zero until the channel is granted.
    pub remote_cid: u16,
    pub ours_configured: bool,
    pub theirs_configured: bool,
    /// Whether we asked for the channel ourselves.
    pub asked: bool,
}

impl Half {
    /// Whether the channel is granted and configured from both sides.
    pub open spec fn complete(self) -> bool {
        self.remote_cid != 0 && self.ours_configured && self.theirs_configured
    }

    /// The channel that this has become.
    pub open spec fn channel(self) -> Channel {
        Channel { psm: self.psm, local_cid: self.local_cid, remote_cid: self.remote_cid }
    }

    /// A channel of which nothing is known yet.
    pub open spec fn fresh(psm: u16, local_cid: u16) -> Half {
        Half {
            psm,
            local_cid,
            remote_cid: 0,
            ours_configured: false,
            theirs_configured: false,
            asked: false,
        }
    }

    /// Whether the channel is granted and configured from both sides.
    pub fn done(&self) -> (r: bool)
        ensures
            r == self.complete(),
    {
        self.remote_cid != 0 && self.ours_configured && self.theirs_configured
    }
}

/// Both HID channels of a link while they come up, from whichever side offers first.
///
/// Either end may open an L2CAP channel, and a controller may use both ways depending
/// on how it woke up. Waiting for one particular side is wrong in both directions: the
/// remote gets a short head start, whatever it has not offered by then is asked for,
/// and what arrives is answered either way.
#[derive(Debug, Clone, Copy, PartialEq, Eq, Structural)]
pub struct HidSetup {
    pub conn_handle: u16,
    pub cid_base: u16,
    pub control: Half,
    pub interrupt: Half,
    pub ident: u8,
}

/// What a turn of the exchange leads to.
#[verifier::ext_equal]
pub struct HidTurn {
    pub next: HidSetup,
    pub actions: Seq<ActionView>,
    pub verdict: VerdictView,
}

impl HidSetup {
    /// The start of the exchange.
    pub open spec fn initial(conn_handle: u16, cid_base: u16) -> HidSetup {
        HidSetup {
            conn_handle,
            cid_base,
            control: Half::fresh(PSM_HID_CONTROL, cid_base),
            interrupt: Half::fresh(PSM_HID_INTERRUPT, (cid_base + 1) as u16),
            ident: 1,
        }
    }

    /// Whether the channel ids that the exchange may hand out exist.
    pub open spec fn has_room(self) -> bool {
        self.cid_base <= 0xFFFA
    }

    /// Nothing happens.
    pub open spec fn ignoring(self) -> HidTurn {
        HidTurn { next: self, actions: seq![], verdict: VerdictView::Waiting }
    }

    /// The channels so far are `self`: it is over where both are complete.
    pub open spec fn settled(self) -> VerdictView {
        if self.control.complete() && self.interrupt.complete() {
            VerdictView::Ready {
                control: self.control.channel(),
                interrupt: self.interrupt.channel(),
            }
        } else {
            VerdictView::Waiting
        }
    }

    /// `self` with one of its channels replaced.
    pub open spec fn with(self, is_control: bool, h: Half) -> HidSetup {
        if is_control {
            HidSetup { control: h, ..self }
        } else {
            HidSetup { interrupt: h, ..self }
        }
    }

    /// One of the two channels.
    pub open spec fn half(self, is_control: bool) -> Half {
        if is_control {
            self.control
        } else {
            self.interrupt
        }
    }

    /// Which channel listens on `cid`: the control channel, the other, or neither.
    pub open spec fn listening(self, cid: u16) -> Option<bool> {
        if self.control.local_cid == cid {
            Some(true)
        } else if self.interrupt.local_cid == cid {
            Some(false)
        } else {
            None
        }
    }

    /// Which channel serves `psm`.
    pub open spec fn serving(self, psm: u16) -> Option<bool> {
        if self.control.psm == psm {
            Some(true)
        } else if self.interrupt.psm == psm {
            Some(false)
        } else {
            None
        }
    }

    /// Asking for one channel, unless it was offered or asked for already.
    pub open spec fn asking(self, is_control: bool) -> (HidSetup, Seq<ActionView>) {
        let h = self.half(is_control);
        if h.asked || h.remote_cid != 0 {
            (self, seq![])
        } else {
            let ident = next_ident(self.ident);
            (
                HidSetup { ident, ..self }.with(is_control, Half { asked: true, ..h }),
                seq![
                    ActionView::Note(psm_text(h.psm, ": remote did not offer — asking"@)),
                    ActionView::Send(
                        signal_packet(
                            self.conn_handle,
                            SIG_CONNECTION_REQUEST,
                            ident,
                            l2cap::connection_request_data(h.psm, h.local_cid),
                        ),
                    ),
                ],
            )
        }
    }

    /// Asking for whatever the remote has not offered.
    pub open spec fn asking_both(self) -> (HidSetup, Seq<ActionView>) {
        let first = self.asking(true);
        let second = first.0.asking(false);
        (second.0, first.1 + second.1)
    }

    /// The remote asks for a channel. A service that we do not have is refused, not
    /// ignored: silence makes the remote retry until it gives up on the whole link.
    /// An offer wins even where we had already asked: the remote is the side that will
    /// send the reports, and two half-open pairs are avoided.
    pub open spec fn on_request(self, ident: u8, data: Seq<u8>) -> HidTurn {
        match l2cap::connection_request_of(data) {
            None => self.ignoring(),
            Some((psm, their_cid)) => match self.serving(psm) {
                None => HidTurn {
                    next: self,
                    actions: seq![
                        ActionView::TrySend(
                            signal_packet(
                                self.conn_handle,
                                SIG_CONNECTION_RESPONSE,
                                ident,
                                l2cap::connection_response_data(0, their_cid, RESULT_NOT_SUPPORTED),
                            ),
                        ),
                    ],
                    verdict: VerdictView::Waiting,
                },
                Some(is_control) => {
                    let local_cid = (self.cid_base + (if is_control {
                        4int
                    } else {
                        5
                    })) as u16;
                    let h = Half {
                        local_cid,
                        remote_cid: their_cid,
                        ours_configured: false,
                        theirs_configured: false,
                        ..self.half(is_control)
                    };
                    let id = next_ident(self.ident);
                    let next = HidSetup { ident: id, ..self }.with(is_control, h);
                    HidTurn {
                        next,
                        actions: seq![
                            ActionView::Note(
                                psm_text(psm, ": remote opened it — granting as cid 0x"@)
                                    + text::hex4(local_cid),
                            ),
                            ActionView::Send(
                                signal_packet(
                                    self.conn_handle,
                                    SIG_CONNECTION_RESPONSE,
                                    ident,
                                    l2cap::connection_response_data(local_cid, their_cid, 0),
                                ),
                            ),
                            ActionView::Send(
                                signal_packet(
                                    self.conn_handle,
                                    SIG_CONFIGURE_REQUEST,
                                    id,
                                    l2cap::configure_request_data(their_cid, CHANNEL_MTU),
                                ),
                            ),
                        ],
                        verdict: next.settled(),
                    }
                },
            },
        }
    }

    /// The remote answers a request of ours.
    pub open spec fn on_response(self, data: Seq<u8>) -> HidTurn {
        match l2cap::connection_response_of(data) {
            None => self.ignoring(),
            Some(r) => match self.listening(r.source_cid) {
                None => self.ignoring(),
                Some(is_control) => {
                    let h = self.half(is_control);
                    if r.result == 0 {
                        let id = next_ident(self.ident);
                        let next = HidSetup { ident: id, ..self }.with(
                            is_control,
                            Half { remote_cid: r.dest_cid, ..h },
                        );
                        HidTurn {
                            next,
                            actions: seq![
                                ActionView::Note(
                                    psm_text(h.psm, ": granted, remote cid 0x"@) + text::hex4(
                                        r.dest_cid,
                                    ),
                                ),
                                ActionView::Send(
                                    signal_packet(
                                        self.conn_handle,
                                        SIG_CONFIGURE_REQUEST,
                                        id,
                                        l2cap::configure_request_data(r.dest_cid, CHANNEL_MTU),
                                    ),
                                ),
                            ],
                            verdict: next.settled(),
                        }
                    } else if r.result == 1 {
                        HidTurn {
                            next: self,
                            actions: seq![ActionView::Note(psm_text(h.psm, ": pending…"@))],
                            verdict: self.settled(),
                        }
                    } else {
                        HidTurn {
                            next: self,
                            actions: seq![],
                            verdict: VerdictView::Failed(
                                error::ErrorView::Protocol(
                                    psm_text(h.psm, " refused: result 0x"@) + text::hex4(r.result),
                                ),
                            ),
                        }
                    }
                },
            },
        }
    }

    /// Where the answer to a configuration of the channel `dest` goes: to the remote's
    /// own id of it, as far as that is known.
    pub open spec fn reply_to(self, dest: u16) -> u16 {
        match self.listening(dest) {
            Some(c) if self.half(c).remote_cid != 0 => self.half(c).remote_cid,
            _ => dest,
        }
    }

    /// The remote configures a channel. It is answered even where it names a channel
    /// that we do not know, or that one never opens.
    pub open spec fn on_configure(self, ident: u8, data: Seq<u8>) -> HidTurn {
        match l2cap::configure_request_of(data) {
            None => self.ignoring(),
            Some((dest, options)) => {
                let send = ActionView::Send(
                    signal_packet(
                        self.conn_handle,
                        SIG_CONFIGURE_RESPONSE,
                        ident,
                        l2cap::configure_response_data(self.reply_to(dest), options),
                    ),
                );
                match self.listening(dest) {
                    None => HidTurn {
                        next: self,
                        actions: seq![send],
                        verdict: self.settled(),
                    },
                    Some(is_control) => {
                        let h = self.half(is_control);
                        let next = self.with(is_control, Half { theirs_configured: true, ..h });
                        HidTurn {
                            next,
                            actions: seq![
                                send,
                                ActionView::Note(psm_text(h.psm, ": their side configured"@)),
                            ],
                            verdict: next.settled(),
                        }
                    },
                }
            },
        }
    }

    /// The remote answers a configuration of ours.
    pub open spec fn on_configured(self, data: Seq<u8>) -> HidTurn {
        match l2cap::configure_response_of(data) {
            None => self.ignoring(),
            Some((cid, result)) => match self.listening(cid) {
                None => self.ignoring(),
                Some(is_control) => {
                    let h = self.half(is_control);
                    if result != 0 {
                        HidTurn {
                            next: self,
                            actions: seq![],
                            verdict: VerdictView::Failed(
                                error::ErrorView::Protocol(
                                    psm_text(h.psm, " configuration refused: 0x"@) + text::hex4(
                                        result,
                                    ),
                                ),
                            ),
                        }
                    } else {
                        let next = self.with(is_control, Half { ours_configured: true, ..h });
                        HidTurn {
                            next,
                            actions: seq![
                                ActionView::Note(psm_text(h.psm, ": our side configured"@)),
                            ],
                            verdict: next.settled(),
                        }
                    }
                },
            },
        }
    }

    /// The remote closes a channel: it is told so, and the exchange is over.
    pub open spec fn on_closing(self, ident: u8, data: Seq<u8>) -> HidTurn {
        HidTurn {
            next: self,
            actions: seq![
                ActionView::TrySend(
                    signal_packet(self.conn_handle, SIG_DISCONNECTION_RESPONSE, ident, data),
                ),
            ],
            verdict: VerdictView::Failed(error::ErrorView::Protocol("remote closed a channel"@)),
        }
    }

    /// What a signalling command leads to.
    pub open spec fn on_signal(self, s: l2cap::SignalView) -> HidTurn {
        if s.code == SIG_CONNECTION_REQUEST {
            self.on_request(s.identifier, s.data)
        } else if s.code == SIG_CONNECTION_RESPONSE {
            self.on_response(s.data)
        } else if s.code == SIG_CONFIGURE_REQUEST {
            self.on_configure(s.identifier, s.data)
        } else if s.code == SIG_CONFIGURE_RESPONSE {
            self.on_configured(s.data)
        } else if s.code == SIG_DISCONNECTION_REQUEST {
            self.on_closing(s.identifier, s.data)
        } else {
            HidTurn { next: self, actions: seq![], verdict: self.settled() }
        }
    }

    /// What an inbound packet leads to. Packets of other links and channels, and
    /// commands that did not arrive whole, are ignored.
    pub open spec fn on_packet(self, p: acl::AclPacketView) -> HidTurn {
        match signal_for(self.conn_handle, p) {
            None => self.ignoring(),
            Some(s) => self.on_signal(s),
        }
    }
}

/// Whether a packet accepts our configuration of the channel that we call `local`.
pub open spec fn accepts(conn_handle: u16, p: acl::AclPacketView, local: u16) -> bool {
    &&& signal_for(conn_handle, p) matches Some(s)
    &&& s.code == SIG_CONFIGURE_RESPONSE
    &&& l2cap::configure_response_of(s.data) == Some((local, 0u16))
}

/// Whether a packet configures the channel that we call `local`.
pub open spec fn configures(conn_handle: u16, p: acl::AclPacketView, local: u16) -> bool {
    &&& signal_for(conn_handle, p) matches Some(s)
    &&& s.code == SIG_CONFIGURE_REQUEST
    &&& l2cap::configure_request_of(s.data) matches Some(c)
    &&& c.0 == local
}

/// The answer to a packet that configures a channel, with its options, to `to`.
pub open spec fn echo(conn_handle: u16, p: acl::AclPacketView, to: u16) -> ActionView {
    let s = signal_for(conn_handle, p)->0;
    ActionView::Send(
        signal_packet(
            conn_handle,
            SIG_CONFIGURE_RESPONSE,
            s.identifier,
            l2cap::configure_response_data(to, (l2cap::configure_request_of(s.data)->0).1),
        ),
    )
}

/// Whether `next`, `actions` and `verdict` are what a turn leads to.
pub open spec fn turn_is(t: HidTurn, next: HidSetup, actions: Seq<Action>, verdict: Verdict) -> bool {
    &&& next == t.next
    &&& action_views(actions) == t.actions
    &&& verdict@ == t.verdict
}

impl HidSetup {
    /// Begin bringing up both HID channels of a link, with channel ids from `cid_base`
    /// on.
    pub fn new(conn_handle: u16, cid_base: u16) -> (s: HidSetup)
        requires
            cid_base <= 0xFFFA,
        ensures
            s == HidSetup::initial(conn_handle, cid_base),
            s.has_room(),
    {
        HidSetup {
            conn_handle,
            cid_base,
            control: Half {
                psm: PSM_HID_CONTROL,
                local_cid: cid_base,
                remote_cid: 0,
                ours_configured: false,
                theirs_configured: false,
                asked: false,
            },
            interrupt: Half {
                psm: PSM_HID_INTERRUPT,
                local_cid: cid_base + 1,
                remote_cid: 0,
                ours_configured: false,
                theirs_configured: false,
                asked: false,
            },
            ident: 1,
        }
    }

    /// One of the two channels.
    fn get_half(&self, is_control: bool) -> (h: Half)
        ensures
            h == self.half(is_control),
    {
        if is_control {
            self.control
        } else {
            self.interrupt
        }
    }

    /// Replace one of the two channels.
    fn set_half(&mut self, is_control: bool, h: Half)
        ensures
            *final(self) == old(self).with(is_control, h),
    {
        if is_control {
            self.control = h;
        } else {
            self.interrupt = h;
        }
    }

    /// Which channel listens on `cid`.
    fn find_listening(&self, cid: u16) -> (r: Option<bool>)
        ensures
            r == self.listening(cid),
    {
        if self.control.local_cid == cid {
            Some(true)
        } else if self.interrupt.local_cid == cid {
            Some(false)
        } else {
            None
        }
    }

    /// How the exchange stands.
    fn judge(&self) -> (v: Verdict)
        ensures
            v@ == self.settled(),
    {
        if self.control.done() && self.interrupt.done() {
            Verdict::Ready {
                control: Channel {
                    psm: self.control.psm,
                    local_cid: self.control.local_cid,
                    remote_cid: self.control.remote_cid,
                },
                interrupt: Channel {
                    psm: self.interrupt.psm,
                    local_cid: self.interrupt.local_cid,
                    remote_cid: self.interrupt.remote_cid,
                },
            }
        } else {
            Verdict::Waiting
        }
    }

    /// Ask for one channel, unless it was offered or asked for already.
    fn ask_half(&mut self, is_control: bool, out: &mut Vec<Action>)
        ensures
            *final(self) == old(self).asking(is_control).0,
            action_views(final(out)@) == action_views(old(out)@) + old(self).asking(is_control).1,
    {
        let h = self.get_half(is_control);
        if h.asked || h.remote_cid != 0 {
            assert(action_views(out@) + seq![] =~= action_views(out@));
            return;
        }
        self.ident = bump(self.ident);
        self.set_half(is_control, Half { asked: true, ..h });
        let ghost start = action_views(out@);
        let note = Action::Note(psm_note(h.psm, ": remote did not offer — asking"));
        let data = connection_request(h.psm, h.local_cid);
        let send = Action::Send(
            frame_signal(self.conn_handle, SIG_CONNECTION_REQUEST, self.ident, data.as_slice()),
        );
        proof {
            action_views_push(out@, note);
            action_views_push(out@.push(note), send);
        }
        let ghost views = seq![note@, send@];
        out.push(note);
        out.push(send);
        assert(action_views(out@) =~= start + views);
    }

    /// Ask for whatever the remote has not offered by now.
    pub fn ask(&mut self) -> (out: Vec<Action>)
        ensures
            *final(self) == old(self).asking_both().0,
            action_views(out@) == old(self).asking_both().1,
    {
        let mut out: Vec<Action> = Vec::new();
        assert(action_views(out@) =~= seq![]);
        self.ask_half(true, &mut out);
        self.ask_half(false, &mut out);
        assert(action_views(out@) =~= old(self).asking_both().1);
        out
    }

    /// Handle a connection request.
    fn take_request(&mut self, ident: u8, data: &[u8]) -> (r: (Vec<Action>, Verdict))
        requires
            old(self).has_room(),
        ensures
            turn_is(old(self).on_request(ident, data@), *final(self), r.0@, r.1),
    {
        let mut out: Vec<Action> = Vec::new();
        assert(action_views(out@) =~= seq![]);
        let (psm, their_cid) = match parse_connection_request(data) {
            Some(p) => p,
            None => {
                return (out, Verdict::Waiting);
            },
        };
        let is_control: bool;
        if self.control.psm == psm {
            is_control = true;
        } else if self.interrupt.psm == psm {
            is_control = false;
        } else {
            let body = connection_response(0, their_cid, RESULT_NOT_SUPPORTED);
            let refuse = Action::TrySend(
                frame_signal(self.conn_handle, SIG_CONNECTION_RESPONSE, ident, body.as_slice()),
            );
            let ghost v = refuse@;
            out.push(refuse);
            assert(action_views(out@) =~= seq![v]);
            return (out, Verdict::Waiting);
        }
        let local_cid: u16 = if is_control {
            self.cid_base + 4
        } else {
            self.cid_base + 5
        };
        let h = self.get_half(is_control);
        self.ident = bump(self.ident);
        self.set_half(
            is_control,
            Half {
                local_cid,
                remote_cid: their_cid,
                ours_configured: false,
                theirs_configured: false,
                ..h
            },
        );
        let note = Action::Note(
            psm_note_value(psm, ": remote opened it — granting as cid 0x", local_cid),
        );
        let grant = connection_response(local_cid, their_cid, 0);
        let first = Action::Send(
            frame_signal(self.conn_handle, SIG_CONNECTION_RESPONSE, ident, grant.as_slice()),
        );
        let config = configure_request(their_cid, CHANNEL_MTU);
        let second = Action::Send(
            frame_signal(self.conn_handle, SIG_CONFIGURE_REQUEST, self.ident, config.as_slice()),
        );
        let ghost views = seq![note@, first@, second@];
        out.push(note);
        out.push(first);
        out.push(second);
        assert(action_views(out@) =~= views);
        (out, self.judge())
    }

    /// Handle a connection response.
    fn take_response(&mut self, data: &[u8]) -> (r: (Vec<Action>, Verdict))
        ensures
            turn_is(old(self).on_response(data@), *final(self), r.0@, r.1),
    {
        let mut out: Vec<Action> = Vec::new();
        assert(action_views(out@) =~= seq![]);
        let r = match parse_connection_response(data) {
            Some(r) => r,
            None => {
                return (out, Verdict::Waiting);
            },
        };
        let is_control: bool = match self.find_listening(r.source_cid) {
            Some(c) => c,
            None => {
                return (out, Verdict::Waiting);
            },
        };
        let h = self.get_half(is_control);
        if r.result == 0 {
            self.ident = bump(self.ident);
            self.set_half(is_control, Half { remote_cid: r.dest_cid, ..h });
            let note = Action::Note(
                psm_note_value(h.psm, ": granted, remote cid 0x", r.dest_cid),
            );
            let config = configure_request(r.dest_cid, CHANNEL_MTU);
            let send = Action::Send(
                frame_signal(
                    self.conn_handle,
                    SIG_CONFIGURE_REQUEST,
                    self.ident,
                    config.as_slice(),
                ),
            );
            let ghost views = seq![note@, send@];
            out.push(note);
            out.push(send);
            assert(action_views(out@) =~= views);
            (out, self.judge())
        } else if r.result == 1 {
            let note = Action::Note(psm_note(h.psm, ": pending…"));
            let ghost v = note@;
            out.push(note);
            assert(action_views(out@) =~= seq![v]);
            (out, self.judge())
        } else {
            (
                out,
                Verdict::Failed(
                    Error::Protocol(psm_note_value(h.psm, " refused: result 0x", r.result)),
                ),
            )
        }
    }

    /// Handle a configuration request.
    fn take_configure(&mut self, ident: u8, data: &[u8]) -> (r: (Vec<Action>, Verdict))
        ensures
            turn_is(old(self).on_configure(ident, data@), *final(self), r.0@, r.1),
    {
        let mut out: Vec<Action> = Vec::new();
        assert(action_views(out@) =~= seq![]);
        let (dest, options) = match parse_configure_request(data) {
            Some(p) => p,
            None => {
                return (out, Verdict::Waiting);
            },
        };
        let found = self.find_listening(dest);
        let reply_to: u16 = match found {
            Some(c) => {
                let h = self.get_half(c);
                if h.remote_cid != 0 {
                    h.remote_cid
                } else {
                    dest
                }
            },
            None => dest,
        };
        let body = configure_response(reply_to, options.as_slice());
        let send = Action::Send(
            frame_signal(self.conn_handle, SIG_CONFIGURE_RESPONSE, ident, body.as_slice()),
        );
        let ghost sv = send@;
        out.push(send);
        assert(action_views(out@) =~= seq![sv]);
        if let Some(c) = found {
            let h = self.get_half(c);
            self.set_half(c, Half { theirs_configured: true, ..h });
            let note = Action::Note(psm_note(h.psm, ": their side configured"));
            let ghost nv = note@;
            out.push(note);
            assert(action_views(out@) =~= seq![sv, nv]);
        }
        (out, self.judge())
    }

    /// Handle a configuration response.
    fn take_configured(&mut self, data: &[u8]) -> (r: (Vec<Action>, Verdict))
        ensures
            turn_is(old(self).on_configured(data@), *final(self), r.0@, r.1),
    {
        let mut out: Vec<Action> = Vec::new();
        assert(action_views(out@) =~= seq![]);
        let (cid, result) = match parse_configure_response_full(data) {
            Some(p) => p,
            None => {
                return (out, Verdict::Waiting);
            },
        };
        let is_control: bool = match self.find_listening(cid) {
            Some(c) => c,
            None => {
                return (out, Verdict::Waiting);
            },
        };
        let h = self.get_half(is_control);
        if result != 0 {
            return (
                out,
                Verdict::Failed(
                    Error::Protocol(
                        psm_note_value(h.psm, " configuration refused: 0x", result),
                    ),
                ),
            );
        }
        self.set_half(is_control, Half { ours_configured: true, ..h });
        let note = Action::Note(psm_note(h.psm, ": our side configured"));
        let ghost v = note@;
        out.push(note);
        assert(action_views(out@) =~= seq![v]);
        (out, self.judge())
    }

    /// Take one inbound packet into account: what to do, and whether it is over.
    pub fn step(&mut self, packet: &AclPacket) -> (r: (Vec<Action>, Verdict))
        requires
            old(self).has_room(),
        ensures
            turn_is(old(self).on_packet(packet@), *final(self), r.0@, r.1),
            final(self).has_room(),
    {
        let s = match read_signal(self.conn_handle, packet) {
            Some(s) => s,
            None => {
                let out: Vec<Action> = Vec::new();
                assert(action_views(out@) =~= seq![]);
                return (out, Verdict::Waiting);
            },
        };
        let data = s.data.as_slice();
        if s.code == SIG_CONNECTION_REQUEST {
            self.take_request(s.identifier, data)
        } else if s.code == SIG_CONNECTION_RESPONSE {
            self.take_response(data)
        } else if s.code == SIG_CONFIGURE_REQUEST {
            self.take_configure(s.identifier, data)
        } else if s.code == SIG_CONFIGURE_RESPONSE {
            self.take_configured(data)
        } else if s.code == SIG_DISCONNECTION_REQUEST {
            let mut out: Vec<Action> = Vec::new();
            let reply = Action::TrySend(
                frame_signal(self.conn_handle, SIG_DISCONNECTION_RESPONSE, s.identifier, data),
            );
            let ghost v = reply@;
            out.push(reply);
            assert(action_views(out@) =~= seq![v]);
            (out, Verdict::Failed(Error::Protocol("remote closed a channel".to_owned())))
        } else {
            let out: Vec<Action> = Vec::new();
            assert(action_views(out@) =~= seq![]);
            (out, self.judge())
        }
    }
}

/// `true` or `false`.
pub open spec fn bool_text(b: bool) -> Seq<char> {
    if b {
        "true"@
    } else {
        "false"@
    }
}

/// Append a truth value.
pub fn push_bool(out: &mut String, b: bool)
    ensures
        final(out)@ == old(out)@ + bool_text(b),
{
    if b {
        push_text(out, "true");
    } else {
        push_text(out, "false");
    }
}

/// How far a channel has come.
pub open spec fn half_text(h: Half) -> Seq<char> {
    "granted="@ + bool_text(h.remote_cid != 0) + " ours="@ + bool_text(h.ours_configured)
        + " theirs="@ + bool_text(h.theirs_configured)
}

/// Append how far a channel has come.
fn push_half(out: &mut String, h: &Half)
    ensures
        final(out)@ == old(out)@ + half_text(*h),
{
    push_text(out, "granted=");
    push_bool(out, h.remote_cid != 0);
    push_text(out, " ours=");
    push_bool(out, h.ours_configured);
    push_text(out, " theirs=");
    push_bool(out, h.theirs_configured);
    assert(out@ =~= old(out)@ + half_text(*h));
}

impl HidSetup {
    /// The error of an exchange that ran out of time.
    pub fn timed_out(&self) -> (e: Error)
        ensures
            e@ == error::ErrorView::Protocol(
                "HID channels timed out (control: "@ + half_text(self.control) + "; interrupt: "@
                    + half_text(self.interrupt) + ")"@,
            ),
    {
        let mut m = String::new();
        push_text(&mut m, "HID channels timed out (control: ");
        push_half(&mut m, &self.control);
        push_text(&mut m, "; interrupt: ");
        push_half(&mut m, &self.interrupt);
        push_text(&mut m, ")");
        Error::Protocol(m)
    }
}

impl HidSetup {
    /// What holds of the exchange from its start on: the two channels serve the two
    /// services, and their ids are the ones set aside for each, so never the same.
    pub open spec fn coherent(self) -> bool {
        &&& self.has_room()
        &&& self.control.psm == PSM_HID_CONTROL
        &&& self.interrupt.psm == PSM_HID_INTERRUPT
        &&& self.control.local_cid == self.cid_base || self.control.local_cid == self.cid_base + 4
        &&& self.interrupt.local_cid == self.cid_base + 1 || self.interrupt.local_cid
            == self.cid_base + 5
    }
}

/// Every exchange starts coherent, and neither asking nor any packet changes that, the
/// link, or the ids set aside.
pub proof fn an_exchange_stays_coherent(
    conn_handle: u16,
    cid_base: u16,
    s: HidSetup,
    p: acl::AclPacketView,
)
    requires
        cid_base <= 0xFFFA,
        s.coherent(),
    ensures
        HidSetup::initial(conn_handle, cid_base).coherent(),
        s.asking_both().0.coherent(),
        s.on_packet(p).next.coherent(),
        s.on_packet(p).next.conn_handle == s.conn_handle,
        s.on_packet(p).next.cid_base == s.cid_base,
        s.control.local_cid != s.interrupt.local_cid,
{
}

/// Channels are reported open only when both are granted and configured from both
/// sides, and then under the ids that the exchange arrived at.
pub proof fn ready_means_configured_both_ways(s: HidSetup, p: acl::AclPacketView)
    requires
        s.on_packet(p).verdict is Ready,
    ensures
        s.on_packet(p).next.control.complete(),
        s.on_packet(p).next.interrupt.complete(),
        s.on_packet(p).verdict == (VerdictView::Ready {
            control: s.on_packet(p).next.control.channel(),
            interrupt: s.on_packet(p).next.interrupt.channel(),
        }),
{
}

/// A side of a channel counts as configured only once the remote said so: ours by a
/// success that names our id, theirs by a request that does.
pub proof fn configured_only_when_told(s: HidSetup, p: acl::AclPacketView, is_control: bool)
    requires
        s.coherent(),
    ensures
        s.on_packet(p).next.half(is_control).ours_configured && !s.half(is_control).ours_configured
            ==> {
            &&& signal_for(s.conn_handle, p) matches Some(g)
            &&& g.code == SIG_CONFIGURE_RESPONSE
            &&& l2cap::configure_response_of(g.data) == Some((s.half(is_control).local_cid, 0u16))
        },
        s.on_packet(p).next.half(is_control).theirs_configured && !s.half(
            is_control,
        ).theirs_configured ==> {
            &&& signal_for(s.conn_handle, p) matches Some(g)
            &&& g.code == SIG_CONFIGURE_REQUEST
            &&& l2cap::configure_request_of(g.data) matches Some((dest, _)) && dest == s.half(
                is_control,
            ).local_cid
        },
{
}

/// Traffic of other links and other channels changes nothing and is not answered.
pub proof fn other_traffic_is_ignored(s: HidSetup, p: acl::AclPacketView)
    requires
        p.conn_handle != s.conn_handle || p.cid != CID_SIGNALLING,
    ensures
        s.on_packet(p) == s.ignoring(),
{
}

/// Every configuration request is answered, under its own identifier and with its own
/// options, whatever channel it names.
pub proof fn every_configuration_is_answered(s: HidSetup, g: l2cap::SignalView)
    requires
        g.code == SIG_CONFIGURE_REQUEST,
        g.data.len() >= 4,
    ensures
        s.on_signal(g).actions.len() >= 1,
        exists|cid: u16|
            s.on_signal(g).actions[0] == ActionView::Send(
                #[trigger] signal_packet(
                    s.conn_handle,
                    SIG_CONFIGURE_RESPONSE,
                    g.identifier,
                    l2cap::configure_response_data(cid, g.data.skip(4)),
                ),
            ),
{
    let (dest, _) = l2cap::configure_request_of(g.data)->0;
    let cid = s.reply_to(dest);
    assert(s.on_signal(g).actions[0] == ActionView::Send(
        signal_packet(
            s.conn_handle,
            SIG_CONFIGURE_RESPONSE,
            g.identifier,
            l2cap::configure_response_data(cid, g.data.skip(4)),
        ),
    ));
}

/// A service that is not one of the two is refused, and nothing else changes.
pub proof fn an_unknown_service_is_refused(s: HidSetup, ident: u8, psm: u16, their_cid: u16)
    requires
        s.coherent(),
        psm != PSM_HID_CONTROL,
        psm != PSM_HID_INTERRUPT,
    ensures
        s.on_request(ident, l2cap::connection_request_data(psm, their_cid)) == (HidTurn {
            next: s,
            actions: seq![
                ActionView::TrySend(
                    signal_packet(
                        s.conn_handle,
                        SIG_CONNECTION_RESPONSE,
                        ident,
                        l2cap::connection_response_data(0, their_cid, RESULT_NOT_SUPPORTED),
                    ),
                ),
            ],
            verdict: VerdictView::Waiting,
        }),
{
    l2cap::connection_request_round_trips(psm, their_cid);
}

/// An offer of the remote wins over a request of ours: the channel is granted under
/// the id set aside for it, and starts unconfigured.
pub proof fn an_offer_wins(s: HidSetup, ident: u8, is_control: bool, their_cid: u16)
    requires
        s.coherent(),
    ensures
        ({
            let turn = s.on_request(
                ident,
                l2cap::connection_request_data(s.half(is_control).psm, their_cid),
            );
            &&& turn.next.half(is_control).remote_cid == their_cid
            &&& turn.next.half(is_control).local_cid == s.cid_base + (if is_control {
                4int
            } else {
                5
            })
            &&& !turn.next.half(is_control).ours_configured
            &&& !turn.next.half(is_control).theirs_configured
            &&& turn.next.half(!is_control) == s.half(!is_control)
        }),
{
    l2cap::connection_request_round_trips(s.half(is_control).psm, their_cid);
}

/// The answer to the last configuration opens the channels.
pub proof fn the_last_answer_opens_the_channels(s: HidSetup, is_control: bool, g: l2cap::SignalView)
    requires
        s.coherent(),
        s.half(!is_control).complete(),
        s.half(is_control).remote_cid != 0,
        s.half(is_control).theirs_configured,
        g.code == SIG_CONFIGURE_RESPONSE,
        l2cap::configure_response_of(g.data) == Some((s.half(is_control).local_cid, 0u16)),
    ensures
        s.on_signal(g).verdict is Ready,
{
}

/// So does the remote's own last configuration.
pub proof fn the_last_request_opens_the_channels(
    s: HidSetup,
    is_control: bool,
    g: l2cap::SignalView,
)
    requires
        s.coherent(),
        s.half(!is_control).complete(),
        s.half(is_control).remote_cid != 0,
        s.half(is_control).ours_configured,
        g.code == SIG_CONFIGURE_REQUEST,
        l2cap::configure_request_of(g.data) matches Some((dest, _)) && dest == s.half(
            is_control,
        ).local_cid,
    ensures
        s.on_signal(g).verdict is Ready,
{
}

/// Nothing is asked for twice.
pub proof fn nothing_is_asked_for_twice(s: HidSetup)
    ensures
        s.asking_both().0.asking_both() == (s.asking_both().0, Seq::<ActionView>::empty()),
{
    assert(s.asking_both().0.asking_both().1 =~= Seq::<ActionView>::empty());
}

/// One thing that happens while the channels come up.
pub enum HidEvent {
    /// Whatever the remote has not offered is asked for.
    Asking,
    /// A packet arrives.
    Arrival(acl::AclPacketView),
}

impl HidSetup {
    /// What an event leads to, and what is done about it.
    pub open spec fn on_event(self, e: HidEvent) -> (HidSetup, Seq<ActionView>) {
        match e {
            HidEvent::Asking => self.asking_both(),
            HidEvent::Arrival(p) => (self.on_packet(p).next, self.on_packet(p).actions),
        }
    }
}

/// The exchange after some events.
pub open spec fn after(start: HidSetup, events: Seq<HidEvent>) -> HidSetup
    decreases events.len(),
{
    if events.len() == 0 {
        start
    } else {
        after(start, events.drop_last()).on_event(events.last()).0
    }
}

/// Everything that was done about some events.
pub open spec fn done_about(start: HidSetup, events: Seq<HidEvent>) -> Seq<ActionView>
    decreases events.len(),
{
    if events.len() == 0 {
        seq![]
    } else {
        done_about(start, events.drop_last()) + after(start, events.drop_last()).on_event(
            events.last(),
        ).1
    }
}

/// The signalling command that an event brings for a link, where it does.
pub open spec fn brought(conn_handle: u16, e: HidEvent) -> Option<l2cap::SignalView> {
    match e {
        HidEvent::Asking => None,
        HidEvent::Arrival(p) => signal_for(conn_handle, p),
    }
}

/// The remote's id of the channel that it asks for by an event, where that is one of the
/// service `psm`.
pub open spec fn requested(conn_handle: u16, e: HidEvent, psm: u16) -> Option<u16> {
    match brought(conn_handle, e) {
        Some(s) if s.code == SIG_CONNECTION_REQUEST => match l2cap::connection_request_of(s.data) {
            Some((asked, cid)) if asked == psm => Some(cid),
            _ => None,
        },
        _ => None,
    }
}

/// The remote's id of a channel that an event settles: by a request of the remote for
/// that service, or by a success that names our id.
pub open spec fn given(conn_handle: u16, e: HidEvent, psm: u16, local: u16) -> Option<u16> {
    match brought(conn_handle, e) {
        Some(s) if s.code == SIG_CONNECTION_RESPONSE => match l2cap::connection_response_of(
            s.data,
        ) {
            Some(r) if r.source_cid == local && r.result == 0 => Some(r.dest_cid),
            _ => None,
        },
        _ => requested(conn_handle, e, psm),
    }
}

/// Whether an event configures the channel that we call `local`: our side, where the remote
/// accepts what we asked for, or the remote's own.
pub open spec fn configuring(conn_handle: u16, e: HidEvent, local: u16, ours: bool) -> bool {
    &&& e matches HidEvent::Arrival(p)
    &&& if ours {
        accepts(conn_handle, p, local)
    } else {
        configures(conn_handle, p, local)
    }
}

/// Whether the remote has asked for a service by no event behind event `j`.
pub open spec fn not_requested_since(
    conn_handle: u16,
    events: Seq<HidEvent>,
    j: int,
    psm: u16,
) -> bool {
    forall|k: int| j < k < events.len() ==> requested(conn_handle, #[trigger] events[k], psm) is None
}

/// Whether a side of a channel was configured by event `j`, and the remote has not asked
/// for the channel anew since.
pub open spec fn configured_by(
    conn_handle: u16,
    events: Seq<HidEvent>,
    j: int,
    c: Channel,
    ours: bool,
) -> bool {
    &&& 0 <= j < events.len()
    &&& configuring(conn_handle, events[j], c.local_cid, ours)
    &&& not_requested_since(conn_handle, events, j, c.psm)
}

/// Whether event `i` settled the remote's id of a channel, and no event behind it settled
/// another.
pub open spec fn settled_by(conn_handle: u16, events: Seq<HidEvent>, i: int, c: Channel) -> bool {
    &&& 0 <= i < events.len()
    &&& given(conn_handle, events[i], c.psm, c.local_cid) == Some(c.remote_cid)
    &&& forall|k: int|
        i < k < events.len() ==> given(conn_handle, #[trigger] events[k], c.psm, c.local_cid) is None
}

/// Whether no event settled the remote's id of a channel.
pub open spec fn unsettled(conn_handle: u16, events: Seq<HidEvent>, c: Channel) -> bool {
    forall|k: int|
        0 <= k < events.len() ==> given(conn_handle, #[trigger] events[k], c.psm, c.local_cid) is None
}

/// Our id of a channel: one of those set aside for it, another where the remote asked for
/// it than where it did not.
pub open spec fn own_cid(cid_base: u16, is_control: bool, offered: bool) -> int {
    cid_base + (if is_control {
        0int
    } else {
        1
    }) + (if offered {
        4int
    } else {
        0
    })
}

/// What an event does to one of the channels: a request of the remote starts it anew, and
/// otherwise at most its remote id is settled and its sides are configured.
spec fn moves(was: HidSetup, e: HidEvent, now: HidSetup, is_control: bool) -> bool {
    let before = was.half(is_control);
    let h = now.half(is_control);
    &&& now.coherent()
    &&& now.conn_handle == was.conn_handle
    &&& now.cid_base == was.cid_base
    &&& h.psm == before.psm
    &&& match requested(was.conn_handle, e, h.psm) {
        Some(cid) => {
            &&& h.local_cid == own_cid(was.cid_base, is_control, true)
            &&& h.remote_cid == cid
            &&& !h.ours_configured
            &&& !h.theirs_configured
        },
        None => {
            &&& h.local_cid == before.local_cid
            &&& h.remote_cid == match given(was.conn_handle, e, h.psm, h.local_cid) {
                Some(cid) => cid,
                None => before.remote_cid,
            }
            &&& h.ours_configured == (before.ours_configured || configuring(
                was.conn_handle,
                e,
                h.local_cid,
                true,
            ))
            &&& h.theirs_configured == (before.theirs_configured || configuring(
                was.conn_handle,
                e,
                h.local_cid,
                false,
            ))
        },
    }
}

/// What a request of the remote does to one of the channels.
proof fn a_request_moves(was: HidSetup, e: HidEvent, s: l2cap::SignalView, is_control: bool)
    requires
        was.coherent(),
        brought(was.conn_handle, e) == Some(s),
        s.code == SIG_CONNECTION_REQUEST,
    ensures
        moves(was, e, was.on_request(s.identifier, s.data).next, is_control),
{
}

/// What an answer to a request of ours does to one of the channels.
proof fn a_response_moves(was: HidSetup, e: HidEvent, s: l2cap::SignalView, is_control: bool)
    requires
        was.coherent(),
        brought(was.conn_handle, e) == Some(s),
        s.code == SIG_CONNECTION_RESPONSE,
    ensures
        moves(was, e, was.on_response(s.data).next, is_control),
{
}

/// What a configuration does to one of the channels, and what an answer to one of ours.
proof fn a_configuration_moves(was: HidSetup, e: HidEvent, s: l2cap::SignalView, is_control: bool)
    requires
        was.coherent(),
        brought(was.conn_handle, e) == Some(s),
    ensures
        s.code == SIG_CONFIGURE_REQUEST ==> moves(
            was,
            e,
            was.on_configure(s.identifier, s.data).next,
            is_control,
        ),
        s.code == SIG_CONFIGURE_RESPONSE ==> moves(
            was,
            e,
            was.on_configured(s.data).next,
            is_control,
        ),
{
}

/// What an event does to one of the channels.
proof fn an_event(was: HidSetup, e: HidEvent, is_control: bool)
    requires
        was.coherent(),
    ensures
        moves(was, e, was.on_event(e).0, is_control),
{
    match brought(was.conn_handle, e) {
        Some(s) => {
            assert(was.on_event(e).0 == was.on_signal(s).next);
            if s.code == SIG_CONNECTION_REQUEST {
                a_request_moves(was, e, s, is_control);
            } else if s.code == SIG_CONNECTION_RESPONSE {
                a_response_moves(was, e, s, is_control);
            } else if s.code == SIG_CONFIGURE_REQUEST || s.code == SIG_CONFIGURE_RESPONSE {
                a_configuration_moves(was, e, s, is_control);
            } else {
                assert(was.on_signal(s).next == was);
            }
        },
        None => {},
    }
}

/// Whether one of the channels of `now` is as some events account for it. Its own id is one
/// of those set aside for it. The remote's id is the last that was settled. A side counts as
/// configured if and only if an event configured it, and the remote has not asked for the
/// channel anew since.
pub open spec fn accounted_for(
    conn_handle: u16,
    cid_base: u16,
    events: Seq<HidEvent>,
    now: HidSetup,
    is_control: bool,
) -> bool {
    let h = now.half(is_control);
    let c = h.channel();
    &&& now.coherent()
    &&& now.conn_handle == conn_handle
    &&& now.cid_base == cid_base
    &&& h.local_cid == own_cid(
        cid_base,
        is_control,
        !not_requested_since(conn_handle, events, -1, h.psm),
    )
    &&& h.ours_configured == exists|j: int| #[trigger] configured_by(conn_handle, events, j, c, true)
    &&& h.theirs_configured == exists|j: int| #[trigger]
        configured_by(conn_handle, events, j, c, false)
    &&& (exists|i: int| #[trigger] settled_by(conn_handle, events, i, c)) || (h.remote_cid == 0
        && unsettled(conn_handle, events, c))
}

/// One more event leaves a side configured where it does so itself, or where the side was
/// configured already and the remote does not ask anew.
proof fn one_more_configuration(
    conn_handle: u16,
    events: Seq<HidEvent>,
    before: Channel,
    c: Channel,
    ours: bool,
)
    requires
        events.len() > 0,
        c.psm == before.psm,
        c.local_cid == before.local_cid || requested(conn_handle, events.last(), c.psm) is Some,
    ensures
        (exists|j: int| #[trigger] configured_by(conn_handle, events, j, c, ours)) == (requested(
            conn_handle,
            events.last(),
            c.psm,
        ) is None && (configuring(conn_handle, events.last(), c.local_cid, ours) || exists|j: int|
         #[trigger] configured_by(conn_handle, events.drop_last(), j, before, ours))),
{
    let most = events.drop_last();
    let n = events.len() - 1;
    assert(events[n] == events.last());
    if exists|j: int| #[trigger] configured_by(conn_handle, events, j, c, ours) {
        let j = choose|j: int| #[trigger] configured_by(conn_handle, events, j, c, ours);
        if j < n {
            assert(requested(conn_handle, events[n], c.psm) is None);
            assert(most[j] == events[j]);
            assert forall|k: int| j < k < most.len() implies requested(
                conn_handle,
                #[trigger] most[k],
                c.psm,
            ) is None by {
                assert(most[k] == events[k]);
            }
            assert(configured_by(conn_handle, most, j, before, ours));
        }
    }
    if requested(conn_handle, events.last(), c.psm) is None {
        if configuring(conn_handle, events.last(), c.local_cid, ours) {
            assert(configured_by(conn_handle, events, n, c, ours));
        }
        if exists|j: int| #[trigger] configured_by(conn_handle, most, j, before, ours) {
            let j = choose|j: int| #[trigger] configured_by(conn_handle, most, j, before, ours);
            assert(events[j] == most[j]);
            assert forall|k: int| j < k < events.len() implies requested(
                conn_handle,
                #[trigger] events[k],
                c.psm,
            ) is None by {
                if k < n {
                    assert(most[k] == events[k]);
                }
            }
            assert(configured_by(conn_handle, events, j, c, ours));
        }
    }
}

/// One more event is accounted for.
proof fn one_more_event(
    cid_base: u16,
    events: Seq<HidEvent>,
    was: HidSetup,
    now: HidSetup,
    is_control: bool,
)
    requires
        events.len() > 0,
        accounted_for(was.conn_handle, cid_base, events.drop_last(), was, is_control),
        moves(was, events.last(), now, is_control),
    ensures
        accounted_for(was.conn_handle, cid_base, events, now, is_control),
{
    let conn_handle = was.conn_handle;
    let c = now.half(is_control).channel();
    let before = was.half(is_control).channel();
    let most = events.drop_last();
    let e = events.last();
    let n = events.len() - 1;
    one_more_configuration(conn_handle, events, before, c, true);
    one_more_configuration(conn_handle, events, before, c, false);
    assert(events[n] == e);
    assert(forall|k: int| 0 <= k < n ==> most[k] == #[trigger] events[k]);
    assert(not_requested_since(conn_handle, events, -1, c.psm) == (not_requested_since(
        conn_handle,
        most,
        -1,
        c.psm,
    ) && requested(conn_handle, e, c.psm) is None)) by {
        if !not_requested_since(conn_handle, most, -1, c.psm) {
            let k = choose|k: int|
                -1 < k < most.len() && requested(conn_handle, #[trigger] most[k], c.psm) is Some;
            assert(requested(conn_handle, events[k], c.psm) is Some);
        }
    }
    if given(conn_handle, e, c.psm, c.local_cid) is Some {
        assert(settled_by(conn_handle, events, n, c));
    } else if before.remote_cid == 0 && unsettled(conn_handle, most, before) {
        assert(unsettled(conn_handle, events, c));
    } else {
        let i = choose|i: int| #[trigger] settled_by(conn_handle, most, i, before);
        assert(events[i] == most[i]);
        assert(settled_by(conn_handle, events, i, c));
    }
}

/// Throughout an exchange, whatever happens and in whatever order, each channel has come
/// exactly as far as the remote said, as [`accounted_for`] spells out.
pub proof fn a_channel_has_come_as_far_as_was_said(
    conn_handle: u16,
    cid_base: u16,
    events: Seq<HidEvent>,
    is_control: bool,
)
    requires
        cid_base <= 0xFFFA,
    ensures
        accounted_for(
            conn_handle,
            cid_base,
            events,
            after(HidSetup::initial(conn_handle, cid_base), events),
            is_control,
        ),
    decreases events.len(),
{
    let start = HidSetup::initial(conn_handle, cid_base);
    if events.len() > 0 {
        let most = events.drop_last();
        let was = after(start, most);
        a_channel_has_come_as_far_as_was_said(conn_handle, cid_base, most, is_control);
        an_event(was, events.last(), is_control);
        one_more_event(cid_base, events, was, after(start, events), is_control);
    } else {
        let c = start.half(is_control).channel();
        assert(unsettled(conn_handle, events, c));
        assert(not_requested_since(conn_handle, events, -1, c.psm));
    }
}

/// What was done about an event stays done.
proof fn what_was_done_stays(start: HidSetup, events: Seq<HidEvent>, j: int, a: ActionView)
    requires
        0 <= j < events.len(),
        after(start, events.take(j)).on_event(events[j]).1.contains(a),
    ensures
        done_about(start, events).contains(a),
    decreases events.len(),
{
    let most = events.drop_last();
    let early = done_about(start, most);
    let late = after(start, most).on_event(events.last()).1;
    let all = done_about(start, events);
    if j == events.len() - 1 {
        assert(events.take(j) =~= most);
        let k = choose|k: int| 0 <= k < late.len() && late[k] == a;
        assert(all[early.len() + k] == a);
    } else {
        assert(events.take(j) =~= most.take(j));
        what_was_done_stays(start, most, j, a);
        let k = choose|k: int| 0 <= k < early.len() && early[k] == a;
        assert(all[k] == a);
    }
}

/// What the remote is owed for a command, under its own identifier: for a configuration its
/// own options, for a request for one of the two channels a grant and a configuration of
/// ours, for a request for another service a refusal, and for a closing a confirmation.
pub open spec fn owed(s: HidSetup, g: l2cap::SignalView) -> Seq<ActionView> {
    if g.code == SIG_CONFIGURE_REQUEST {
        match l2cap::configure_request_of(g.data) {
            Some((dest, options)) => seq![
                ActionView::Send(
                    signal_packet(
                        s.conn_handle,
                        SIG_CONFIGURE_RESPONSE,
                        g.identifier,
                        l2cap::configure_response_data(s.reply_to(dest), options),
                    ),
                ),
            ],
            None => seq![],
        }
    } else if g.code == SIG_CONNECTION_REQUEST {
        match l2cap::connection_request_of(g.data) {
            Some((psm, cid)) => if psm == PSM_HID_CONTROL || psm == PSM_HID_INTERRUPT {
                seq![
                    ActionView::Send(
                        signal_packet(
                            s.conn_handle,
                            SIG_CONNECTION_RESPONSE,
                            g.identifier,
                            l2cap::connection_response_data(
                                own_cid(s.cid_base, psm == PSM_HID_CONTROL, true) as u16,
                                cid,
                                0,
                            ),
                        ),
                    ),
                    ActionView::Send(
                        signal_packet(
                            s.conn_handle,
                            SIG_CONFIGURE_REQUEST,
                            next_ident(s.ident),
                            l2cap::configure_request_data(cid, CHANNEL_MTU),
                        ),
                    ),
                ]
            } else {
                seq![
                    ActionView::TrySend(
                        signal_packet(
                            s.conn_handle,
                            SIG_CONNECTION_RESPONSE,
                            g.identifier,
                            l2cap::connection_response_data(0, cid, RESULT_NOT_SUPPORTED),
                        ),
                    ),
                ]
            },
            None => seq![],
        }
    } else if g.code == SIG_DISCONNECTION_REQUEST {
        seq![
            ActionView::TrySend(
                signal_packet(s.conn_handle, SIG_DISCONNECTION_RESPONSE, g.identifier, g.data),
            ),
        ]
    } else {
        seq![]
    }
}

/// What is owed for a request is done.
proof fn a_request_is_answered(s: HidSetup, g: l2cap::SignalView, k: int)
    requires
        s.coherent(),
        g.code == SIG_CONNECTION_REQUEST,
        0 <= k < owed(s, g).len(),
    ensures
        s.on_request(g.identifier, g.data).actions.contains(owed(s, g)[k]),
{
    let done = s.on_request(g.identifier, g.data).actions;
    let (psm, cid) = l2cap::connection_request_of(g.data)->0;
    if psm == PSM_HID_CONTROL || psm == PSM_HID_INTERRUPT {
        assert(s.serving(psm) == Some(psm == PSM_HID_CONTROL));
        assert(done[k + 1] == owed(s, g)[k]);
    } else {
        assert(s.serving(psm) is None);
        assert(done[k] == owed(s, g)[k]);
    }
}

/// What is owed for a command is done.
proof fn a_command_is_answered(s: HidSetup, g: l2cap::SignalView, k: int)
    requires
        s.coherent(),
        0 <= k < owed(s, g).len(),
    ensures
        s.on_signal(g).actions.contains(owed(s, g)[k]),
{
    if g.code == SIG_CONNECTION_REQUEST {
        a_request_is_answered(s, g, k);
    } else if g.code == SIG_CONFIGURE_REQUEST {
        assert(s.on_configure(g.identifier, g.data).actions[0] == owed(s, g)[k]);
    } else {
        assert(s.on_closing(g.identifier, g.data).actions[0] == owed(s, g)[k]);
    }
}

/// Throughout an exchange no command of the remote is left without what it is owed.
pub proof fn every_command_is_answered(
    conn_handle: u16,
    cid_base: u16,
    events: Seq<HidEvent>,
    j: int,
)
    requires
        cid_base <= 0xFFFA,
        0 <= j < events.len(),
    ensures
        ({
            let start = HidSetup::initial(conn_handle, cid_base);
            brought(conn_handle, events[j]) matches Some(g) ==> forall|a: ActionView|
                owed(after(start, events.take(j)), g).contains(a) ==> #[trigger] done_about(
                    start,
                    events,
                ).contains(a)
        }),
{
    let start = HidSetup::initial(conn_handle, cid_base);
    let was = after(start, events.take(j));
    a_channel_has_come_as_far_as_was_said(conn_handle, cid_base, events.take(j), true);
    if let Some(g) = brought(conn_handle, events[j]) {
        assert(was.on_event(events[j]).1 == was.on_signal(g).actions);
        assert forall|a: ActionView| owed(was, g).contains(a) implies #[trigger] done_about(
            start,
            events,
        ).contains(a) by {
            let k = choose|k: int| 0 <= k < owed(was, g).len() && owed(was, g)[k] == a;
            a_command_is_answered(was, g, k);
            what_was_done_stays(start, events, j, a);
        }
    }
}

/// Whether the remote said all that it takes to open one of the channels as `c`: it settled
/// its id, it accepted our configuration, and it sent its own, both since it last asked for
/// the channel.
pub open spec fn opened(
    conn_handle: u16,
    cid_base: u16,
    events: Seq<HidEvent>,
    is_control: bool,
    c: Channel,
) -> bool {
    &&& c.psm == if is_control {
        PSM_HID_CONTROL
    } else {
        PSM_HID_INTERRUPT
    }
    &&& c.local_cid == own_cid(
        cid_base,
        is_control,
        !not_requested_since(conn_handle, events, -1, c.psm),
    )
    &&& c.remote_cid != 0
    &&& exists|i: int| #[trigger] settled_by(conn_handle, events, i, c)
    &&& exists|j: int| #[trigger] configured_by(conn_handle, events, j, c, true)
    &&& exists|j: int| #[trigger] configured_by(conn_handle, events, j, c, false)
}

/// A channel is complete if and only if the remote opened it.
proof fn what_is_complete_was_opened(
    conn_handle: u16,
    cid_base: u16,
    events: Seq<HidEvent>,
    is_control: bool,
    c: Channel,
)
    requires
        cid_base <= 0xFFFA,
    ensures
        ({
            let h = after(HidSetup::initial(conn_handle, cid_base), events).half(is_control);
            opened(conn_handle, cid_base, events, is_control, c) == (h.complete() && h.channel()
                == c)
        }),
{
    let h = after(HidSetup::initial(conn_handle, cid_base), events).half(is_control);
    a_channel_has_come_as_far_as_was_said(conn_handle, cid_base, events, is_control);
    if opened(conn_handle, cid_base, events, is_control, c) {
        let i = choose|i: int| #[trigger] settled_by(conn_handle, events, i, c);
        assert(!unsettled(conn_handle, events, h.channel()));
        let k = choose|k: int| #[trigger] settled_by(conn_handle, events, k, h.channel());
        assert(i == k);
        let ours = choose|j: int| #[trigger] configured_by(conn_handle, events, j, c, true);
        let theirs = choose|j: int| #[trigger] configured_by(conn_handle, events, j, c, false);
        assert(configured_by(conn_handle, events, ours, h.channel(), true));
        assert(configured_by(conn_handle, events, theirs, h.channel(), false));
    }
}

/// Whatever happened before, both channels are reported only where the remote opened both,
/// and under the ids that it settled; and the packet by which it has said all that it takes
/// does report them.
pub proof fn ready_means_both_were_opened(
    conn_handle: u16,
    cid_base: u16,
    events: Seq<HidEvent>,
    last: acl::AclPacketView,
    control: Channel,
    interrupt: Channel,
)
    requires
        cid_base <= 0xFFFA,
    ensures
        ({
            let all = events.push(HidEvent::Arrival(last));
            let was = after(HidSetup::initial(conn_handle, cid_base), events);
            let ready = was.on_packet(last).verdict == (VerdictView::Ready { control, interrupt });
            let both = opened(conn_handle, cid_base, all, true, control) && opened(
                conn_handle,
                cid_base,
                all,
                false,
                interrupt,
            );
            &&& ready ==> both
            &&& both && was.settled() is Waiting ==> ready
        }),
{
    let start = HidSetup::initial(conn_handle, cid_base);
    let was = after(start, events);
    let all = events.push(HidEvent::Arrival(last));
    assert(all.drop_last() =~= events);
    assert(all.last() == HidEvent::Arrival(last));
    what_is_complete_was_opened(conn_handle, cid_base, all, true, control);
    what_is_complete_was_opened(conn_handle, cid_base, all, false, interrupt);
    if was.on_packet(last).verdict is Ready {
        ready_means_configured_both_ways(was, last);
    }
    if was.settled() is Waiting && was.on_packet(last).next.settled() is Ready {
        the_last_word_ends_the_exchange(was, last);
    }
}

/// The exchange ends as soon as it can: the packet that completes the second channel is the
/// one that reports both.
pub proof fn the_last_word_ends_the_exchange(s: HidSetup, last: acl::AclPacketView)
    requires
        s.settled() is Waiting,
        s.on_packet(last).next.settled() is Ready,
    ensures
        s.on_packet(last).verdict == s.on_packet(last).next.settled(),
{
}

/// Once a channel was asked for, it is not asked for again, whatever happens in between.
pub proof fn nothing_is_asked_for_again(s: HidSetup, events: Seq<HidEvent>, is_control: bool)
    requires
        s.half(is_control).asked,
    ensures
        after(s, events).half(is_control).asked,
        after(s, events).asking(is_control) == (after(s, events), Seq::<ActionView>::empty()),
    decreases events.len(),
{
    if events.len() > 0 {
        nothing_is_asked_for_again(s, events.drop_last(), is_control);
    }
    assert(after(s, events).asking(is_control).1 =~= Seq::<ActionView>::empty());
}

/// A signalling command survives its way to the link: what is sent is read there as that very
/// command, on the channel for signalling.
pub proof fn a_signal_packet_is_read(
    handle: u16,
    code: u8,
    identifier: u8,
    data: Seq<u8>,
    other: u16,
)
    requires
        handle < 0x1000,
        data.len() <= 0xFFF0,
        other != handle,
    ensures
        ({
            let p = acl::acl_of(signal_packet(handle, code, identifier, data));
            &&& p is Some
            &&& (p->0).conn_handle == handle
            &&& (p->0).cid == 1
            &&& signal_for(handle, p->0) == Some(l2cap::SignalView { code, identifier, data })
            &&& signal_for(other, p->0) is None
        }),
{
    let f = l2cap::signal_frame(code, identifier, data);
    assert(acl::fits_acl(f)) by {
        assert(f.len() == 4 + data.len());
    }
    l2cap::signal_round_trips(code, identifier, data);
    a_frame_is_read(handle, f);
}

/// What is framed for signalling on a link is read from it.
proof fn a_frame_is_read(handle: u16, f: Seq<u8>)
    requires
        handle < 0x1000,
        acl::fits_acl(f),
    ensures
        acl::acl_of(acl::acl_frame(handle, CID_SIGNALLING, f, PB_FIRST_FLUSHABLE)) == Some(
            acl::AclPacketView { conn_handle: handle, cid: 1, payload: f },
        ),
{
    acl::acl_round_trips(handle, CID_SIGNALLING, f, PB_FIRST_FLUSHABLE);
}

/// Identifiers are counted on by one, and start over behind the last; no two in a row are the
/// same.
pub proof fn identifiers_count_on(i: u8)
    ensures
        i < 255 ==> next_ident(i) == i + 1,
        next_ident(255) == 0,
        next_ident(i) != i,
{
}

/// What is asked for goes out as asked: each channel that is neither granted nor asked for
/// yet, under the service that it serves and the id that it listens on, each under an
/// identifier of its own.
pub proof fn what_is_missing_is_asked_for(s: HidSetup)
    requires
        s.coherent(),
        !s.control.asked,
        !s.interrupt.asked,
        s.control.remote_cid == 0,
        s.interrupt.remote_cid == 0,
    ensures
        ({
            let (next, acts) = s.asking_both();
            let one = next_ident(s.ident);
            let two = next_ident(one);
            &&& acts.len() == 4
            &&& acts[1] == ActionView::Send(
                signal_packet(
                    s.conn_handle,
                    0x02,
                    one,
                    l2cap::connection_request_data(0x11, s.control.local_cid),
                ),
            )
            &&& acts[3] == ActionView::Send(
                signal_packet(
                    s.conn_handle,
                    0x02,
                    two,
                    l2cap::connection_request_data(0x13, s.interrupt.local_cid),
                ),
            )
            &&& next.control == Half { asked: true, ..s.control }
            &&& next.interrupt == Half { asked: true, ..s.interrupt }
            &&& next.ident == two
        }),
{
    let (next, acts) = s.asking_both();
    let first = s.asking(true);
    let second = first.0.asking(false);
    assert(acts[1] == first.1[1]);
    assert(acts[3] == second.1[1]);
}

/// A channel that was offered is not asked for.
pub proof fn what_was_offered_is_not_asked_for(s: HidSetup, is_control: bool)
    requires
        s.half(is_control).remote_cid != 0,
    ensures
        s.asking(is_control) == (s, Seq::<ActionView>::empty()),
{
    assert(s.asking(is_control).1 =~= Seq::<ActionView>::empty());
}

/// A grant is followed by a configuration of the channel that was granted, which asks for 672
/// bytes; a pending answer changes nothing, and a refusal ends the exchange.
pub proof fn a_grant_is_configured(
    s: HidSetup,
    is_control: bool,
    identifier: u8,
    theirs: u16,
    result: u16,
)
    requires
        s.coherent(),
    ensures
        ({
            let t = s.on_signal(
                l2cap::SignalView {
                    code: 0x03,
                    identifier,
                    data: l2cap::connection_response_data(
                        theirs,
                        s.half(is_control).local_cid,
                        result,
                    ),
                },
            );
            if result == 0 {
                &&& t.next.half(is_control).remote_cid == theirs
                &&& t.next.half(!is_control) == s.half(!is_control)
                &&& t.actions.contains(
                    ActionView::Send(
                        signal_packet(
                            s.conn_handle,
                            0x04,
                            next_ident(s.ident),
                            l2cap::configure_request_data(theirs, 672),
                        ),
                    ),
                )
                &&& t.verdict !is Failed
            } else {
                &&& t.next == s
                &&& t.verdict is Failed <==> result != 1
            }
        }),
{
    l2cap::connection_response_round_trips(theirs, s.half(is_control).local_cid, result);
    let t = s.on_response(
        l2cap::connection_response_data(theirs, s.half(is_control).local_cid, result),
    );
    if result == 0 {
        assert(t.actions[1] == ActionView::Send(
            signal_packet(
                s.conn_handle,
                0x04,
                next_ident(s.ident),
                l2cap::configure_request_data(theirs, 672),
            ),
        ));
    }
}

/// A configuration that the remote refuses ends the exchange, and so does a channel that it
/// closes; nothing that it accepts does.
pub proof fn a_refusal_ends_the_exchange(
    s: HidSetup,
    is_control: bool,
    identifier: u8,
    result: u16,
    closing: Seq<u8>,
)
    requires
        s.coherent(),
    ensures
        ({
            let cid = s.half(is_control).local_cid;
            let data = l2cap::two(cid) + l2cap::two(0) + l2cap::two(result);
            s.on_signal(l2cap::SignalView { code: 0x05, identifier, data }).verdict is Failed <==> result
                != 0
        }),
        s.on_signal(l2cap::SignalView { code: 0x06, identifier, data: closing }).verdict is Failed,
{
    let cid = s.half(is_control).local_cid;
    l2cap::fields_are_read_where_they_stand(cid, 0, result, 0, seq![]);
    assert(l2cap::two(cid) + l2cap::two(0) + l2cap::two(result) + Seq::<u8>::empty() =~= l2cap::two(
        cid,
    ) + l2cap::two(0) + l2cap::two(result));
}

/// An exchange starts with nothing granted and the first two ids that were set aside.
pub proof fn an_exchange_starts_with_nothing(conn_handle: u16, cid_base: u16)
    requires
        cid_base <= 0xFFFA,
    ensures
        ({
            let s = HidSetup::initial(conn_handle, cid_base);
            &&& s.control.local_cid == cid_base && s.interrupt.local_cid == cid_base + 1
            &&& s.control.remote_cid == 0 && s.interrupt.remote_cid == 0
            &&& !s.control.complete() && !s.interrupt.complete()
            &&& !s.control.asked && !s.interrupt.asked
            &&& s.ident == 1
        }),
{
}

} // verus!
