//! Granting the HID channels that a remote opens.
//!
//! On an incoming link a reconnecting device sends its own requests and waits to be
//! answered. A host that instead sends requests of its own gets silence from a device
//! already waiting on it.
use vstd::prelude::*;
use crate::acl;
use crate::acl::AclPacket;
use crate::channels;
use crate::channels::{
    bump, frame_signal, push_bool, read_signal, Action, ActionView, Verdict, VerdictView,
    CHANNEL_MTU, RESULT_NOT_SUPPORTED,
};
use crate::error;
use crate::error::Error;
use crate::l2cap;
use crate::l2cap::{
    configure_request, configure_response, connection_response, parse_configure_request,
    parse_configure_response_full, parse_connection_request, Channel, FIRST_DYNAMIC_CID,
    PSM_HID_CONTROL, PSM_HID_INTERRUPT, SIG_CONFIGURE_REQUEST, SIG_CONFIGURE_RESPONSE,
    SIG_CONNECTION_REQUEST, SIG_CONNECTION_RESPONSE, SIG_DISCONNECTION_REQUEST,
    SIG_DISCONNECTION_RESPONSE,
};
use crate::text;
use crate::text::{push_hex4, push_text};

verus! {

/// The HID channels of a link that the remote has opened so far.
#[derive(Debug, Clone, Copy, PartialEq, Eq, Structural)]
pub struct AcceptSetup {
    pub conn_handle: u16,
    pub control: Option<Channel>,
    pub interrupt: Option<Channel>,
    /// Whether the remote accepted our configuration of the interrupt channel.
    pub ours_configured: bool,
    /// Whether the remote's configuration of the interrupt channel was answered.
    pub theirs_configured: bool,
}

/// What a turn of the exchange leads to.
#[verifier::ext_equal]
pub struct AcceptTurn {
    pub next: AcceptSetup,
    pub actions: Seq<ActionView>,
    pub verdict: VerdictView,
}

/// Our id for a service, where we have it. Our ids are ours to choose; they are kept
/// distinct.
pub open spec fn granted_cid(psm: u16) -> Option<u16> {
    if psm == PSM_HID_CONTROL {
        Some(FIRST_DYNAMIC_CID)
    } else if psm == PSM_HID_INTERRUPT {
        Some((FIRST_DYNAMIC_CID + 1) as u16)
    } else {
        None
    }
}

impl AcceptSetup {
    /// The start of the exchange.
    pub open spec fn initial(conn_handle: u16) -> AcceptSetup {
        AcceptSetup {
            conn_handle,
            control: None,
            interrupt: None,
            ours_configured: false,
            theirs_configured: false,
        }
    }

    /// Nothing happens.
    pub open spec fn ignoring(self) -> AcceptTurn {
        AcceptTurn { next: self, actions: seq![], verdict: VerdictView::Waiting }
    }

    /// It is over once the remote has opened both channels and the interrupt channel, on
    /// which input arrives, is configured from both sides.
    pub open spec fn settled(self) -> VerdictView {
        match (self.control, self.interrupt) {
            (Some(control), Some(interrupt)) if self.ours_configured && self.theirs_configured => {
                VerdictView::Ready { control, interrupt }
            },
            _ => VerdictView::Waiting,
        }
    }

    /// Whether `cid` is our id of the interrupt channel, and the remote has opened it.
    pub open spec fn is_interrupt(self, cid: u16) -> bool {
        self.interrupt matches Some(i) && i.local_cid == cid
    }

    /// The remote opens a channel: it is granted and configured at once. Any service
    /// but the two is refused.
    pub open spec fn on_request(self, ident: u8, data: Seq<u8>) -> AcceptTurn {
        match l2cap::connection_request_of(data) {
            None => self.ignoring(),
            Some((psm, their_cid)) => match granted_cid(psm) {
                None => AcceptTurn {
                    next: self,
                    actions: seq![
                        ActionView::TrySend(
                            channels::signal_packet(
                                self.conn_handle,
                                SIG_CONNECTION_RESPONSE,
                                ident,
                                l2cap::connection_response_data(0, their_cid, RESULT_NOT_SUPPORTED),
                            ),
                        ),
                    ],
                    verdict: VerdictView::Waiting,
                },
                Some(our_cid) => {
                    let ch = Channel { psm, local_cid: our_cid, remote_cid: their_cid };
                    let next = if psm == PSM_HID_INTERRUPT {
                        AcceptSetup {
                            interrupt: Some(ch),
                            ours_configured: false,
                            theirs_configured: false,
                            ..self
                        }
                    } else {
                        AcceptSetup { control: Some(ch), ..self }
                    };
                    AcceptTurn {
                        next,
                        actions: seq![
                            ActionView::Note(
                                "granting PSM 0x"@ + text::hex4(psm) + " as cid 0x"@ + text::hex4(
                                    our_cid,
                                ),
                            ),
                            ActionView::Send(
                                channels::signal_packet(
                                    self.conn_handle,
                                    SIG_CONNECTION_RESPONSE,
                                    ident,
                                    l2cap::connection_response_data(our_cid, their_cid, 0),
                                ),
                            ),
                            ActionView::Send(
                                channels::signal_packet(
                                    self.conn_handle,
                                    SIG_CONFIGURE_REQUEST,
                                    channels::next_ident(ident),
                                    l2cap::configure_request_data(their_cid, CHANNEL_MTU),
                                ),
                            ),
                        ],
                        verdict: next.settled(),
                    }
                },
            },
        }
    }

    /// Where the answer to a configuration of the channel `dest` goes.
    pub open spec fn reply_to(self, dest: u16) -> u16 {
        match (self.control, self.interrupt) {
            (Some(c), _) if c.local_cid == dest => c.remote_cid,
            (_, Some(i)) if i.local_cid == dest => i.remote_cid,
            _ => dest,
        }
    }

    /// The remote configures a channel: its options are echoed.
    pub open spec fn on_configure(self, ident: u8, data: Seq<u8>) -> AcceptTurn {
        match l2cap::configure_request_of(data) {
            None => AcceptTurn { next: self, actions: seq![], verdict: self.settled() },
            Some((dest, options)) => {
                let next = AcceptSetup {
                    theirs_configured: self.theirs_configured || self.is_interrupt(dest),
                    ..self
                };
                AcceptTurn {
                    next,
                    actions: seq![
                        ActionView::Send(
                            channels::signal_packet(
                                self.conn_handle,
                                SIG_CONFIGURE_RESPONSE,
                                ident,
                                l2cap::configure_response_data(self.reply_to(dest), options),
                            ),
                        ),
                    ],
                    verdict: next.settled(),
                }
            },
        }
    }

    /// The remote answers a configuration of ours. Only that it accepts the one of the
    /// interrupt channel counts.
    pub open spec fn on_configured(self, data: Seq<u8>) -> AcceptTurn {
        let accepted = match l2cap::configure_response_of(data) {
            Some((cid, result)) => result == 0 && self.is_interrupt(cid),
            None => false,
        };
        let next = AcceptSetup { ours_configured: self.ours_configured || accepted, ..self };
        AcceptTurn { next, actions: seq![], verdict: next.settled() }
    }

    /// The remote closes a channel: it is told so, and the exchange is over.
    pub open spec fn on_closing(self, ident: u8, data: Seq<u8>) -> AcceptTurn {
        AcceptTurn {
            next: self,
            actions: seq![
                ActionView::TrySend(
                    channels::signal_packet(
                        self.conn_handle,
                        SIG_DISCONNECTION_RESPONSE,
                        ident,
                        data,
                    ),
                ),
            ],
            verdict: VerdictView::Failed(error::ErrorView::Protocol("remote closed a channel"@)),
        }
    }

    /// What an inbound packet leads to.
    pub open spec fn on_packet(self, p: acl::AclPacketView) -> AcceptTurn {
        match channels::signal_for(self.conn_handle, p) {
            None => self.ignoring(),
            Some(s) => if s.code == SIG_CONNECTION_REQUEST {
                self.on_request(s.identifier, s.data)
            } else if s.code == SIG_CONFIGURE_REQUEST {
                self.on_configure(s.identifier, s.data)
            } else if s.code == SIG_CONFIGURE_RESPONSE {
                self.on_configured(s.data)
            } else if s.code == SIG_DISCONNECTION_REQUEST {
                self.on_closing(s.identifier, s.data)
            } else {
                AcceptTurn { next: self, actions: seq![], verdict: self.settled() }
            },
        }
    }

    /// Whether `next`, `actions` and `verdict` are what a turn leads to.
    pub open spec fn turn_is(
        t: AcceptTurn,
        next: AcceptSetup,
        actions: Seq<Action>,
        verdict: Verdict,
    ) -> bool {
        &&& next == t.next
        &&& channels::action_views(actions) == t.actions
        &&& verdict@ == t.verdict
    }

    /// Begin waiting for the remote to open its channels.
    pub fn new(conn_handle: u16) -> (s: AcceptSetup)
        ensures
            s == AcceptSetup::initial(conn_handle),
    {
        AcceptSetup {
            conn_handle,
            control: None,
            interrupt: None,
            ours_configured: false,
            theirs_configured: false,
        }
    }

    /// How the exchange stands.
    fn judge(&self) -> (v: Verdict)
        ensures
            v@ == self.settled(),
    {
        match (self.control, self.interrupt) {
            (Some(control), Some(interrupt)) if self.ours_configured && self.theirs_configured => {
                Verdict::Ready { control, interrupt }
            },
            _ => Verdict::Waiting,
        }
    }

    /// Handle a connection request.
    fn take_request(&mut self, ident: u8, data: &[u8]) -> (r: (Vec<Action>, Verdict))
        ensures
            AcceptSetup::turn_is(old(self).on_request(ident, data@), *final(self), r.0@, r.1),
    {
        let mut out: Vec<Action> = Vec::new();
        assert(channels::action_views(out@) =~= seq![]);
        let (psm, their_cid) = match parse_connection_request(data) {
            Some(p) => p,
            None => {
                return (out, Verdict::Waiting);
            },
        };
        let our_cid: u16;
        if psm == PSM_HID_CONTROL {
            our_cid = FIRST_DYNAMIC_CID;
        } else if psm == PSM_HID_INTERRUPT {
            our_cid = FIRST_DYNAMIC_CID + 1;
        } else {
            let body = connection_response(0, their_cid, RESULT_NOT_SUPPORTED);
            let refuse = Action::TrySend(
                frame_signal(self.conn_handle, SIG_CONNECTION_RESPONSE, ident, body.as_slice()),
            );
            let ghost v = refuse@;
            out.push(refuse);
            assert(channels::action_views(out@) =~= seq![v]);
            return (out, Verdict::Waiting);
        }
        let mut text = String::new();
        push_text(&mut text, "granting PSM 0x");
        push_hex4(&mut text, psm);
        push_text(&mut text, " as cid 0x");
        push_hex4(&mut text, our_cid);
        let note = Action::Note(text);
        let grant = connection_response(our_cid, their_cid, 0);
        let first = Action::Send(
            frame_signal(self.conn_handle, SIG_CONNECTION_RESPONSE, ident, grant.as_slice()),
        );
        let config = configure_request(their_cid, CHANNEL_MTU);
        let second = Action::Send(
            frame_signal(self.conn_handle, SIG_CONFIGURE_REQUEST, bump(ident), config.as_slice()),
        );
        let ghost views = seq![note@, first@, second@];
        out.push(note);
        out.push(first);
        out.push(second);
        assert(channels::action_views(out@) =~= views);
        let ch = Channel { psm, local_cid: our_cid, remote_cid: their_cid };
        if psm == PSM_HID_INTERRUPT {
            self.interrupt = Some(ch);
            self.ours_configured = false;
            self.theirs_configured = false;
        } else {
            self.control = Some(ch);
        }
        (out, self.judge())
    }

    /// Handle a configuration request.
    fn take_configure(&mut self, ident: u8, data: &[u8]) -> (r: (Vec<Action>, Verdict))
        ensures
            AcceptSetup::turn_is(old(self).on_configure(ident, data@), *final(self), r.0@, r.1),
    {
        let mut out: Vec<Action> = Vec::new();
        assert(channels::action_views(out@) =~= seq![]);
        if let Some((dest, options)) = parse_configure_request(data) {
            let mut remote: u16 = dest;
            if let Some(i) = self.interrupt {
                if i.local_cid == dest {
                    remote = i.remote_cid;
                }
            }
            if let Some(c) = self.control {
                if c.local_cid == dest {
                    remote = c.remote_cid;
                }
            }
            let body = configure_response(remote, options.as_slice());
            let reply = Action::Send(
                frame_signal(self.conn_handle, SIG_CONFIGURE_RESPONSE, ident, body.as_slice()),
            );
            let ghost v = reply@;
            out.push(reply);
            assert(channels::action_views(out@) =~= seq![v]);
            if let Some(i) = self.interrupt {
                if i.local_cid == dest {
                    self.theirs_configured = true;
                }
            }
        }
        (out, self.judge())
    }

    /// Take one inbound packet into account: what to do, and whether it is over.
    pub fn step(&mut self, packet: &AclPacket) -> (r: (Vec<Action>, Verdict))
        ensures
            AcceptSetup::turn_is(old(self).on_packet(packet@), *final(self), r.0@, r.1),
    {
        let mut out: Vec<Action> = Vec::new();
        assert(channels::action_views(out@) =~= seq![]);
        let s = match read_signal(self.conn_handle, packet) {
            Some(s) => s,
            None => {
                return (out, Verdict::Waiting);
            },
        };
        let data = s.data.as_slice();
        if s.code == SIG_CONNECTION_REQUEST {
            self.take_request(s.identifier, data)
        } else if s.code == SIG_CONFIGURE_REQUEST {
            self.take_configure(s.identifier, data)
        } else if s.code == SIG_CONFIGURE_RESPONSE {
            if let Some((cid, result)) = parse_configure_response_full(data) {
                if let Some(i) = self.interrupt {
                    if result == 0 && i.local_cid == cid {
                        self.ours_configured = true;
                    }
                }
            }
            (out, self.judge())
        } else if s.code == SIG_DISCONNECTION_REQUEST {
            let reply = Action::TrySend(
                frame_signal(self.conn_handle, SIG_DISCONNECTION_RESPONSE, s.identifier, data),
            );
            let ghost v = reply@;
            out.push(reply);
            assert(channels::action_views(out@) =~= seq![v]);
            (out, Verdict::Failed(Error::Protocol("remote closed a channel".to_owned())))
        } else {
            (out, self.judge())
        }
    }

    /// The error of an exchange that ran out of time.
    pub fn timed_out(&self) -> (e: Error)
        ensures
            e@ == error::ErrorView::Protocol(
                "remote never opened its HID channels (control="@ + channels::bool_text(
                    self.control is Some,
                ) + ", interrupt="@ + channels::bool_text(self.interrupt is Some) + ")"@,
            ),
    {
        let mut m = String::new();
        push_text(&mut m, "remote never opened its HID channels (control=");
        push_bool(&mut m, self.control.is_some());
        push_text(&mut m, ", interrupt=");
        push_bool(&mut m, self.interrupt.is_some());
        push_text(&mut m, ")");
        Error::Protocol(m)
    }
}

/// The exchange after some packets.
pub open spec fn after(start: AcceptSetup, packets: Seq<acl::AclPacketView>) -> AcceptSetup
    decreases packets.len(),
{
    if packets.len() == 0 {
        start
    } else {
        after(start, packets.drop_last()).on_packet(packets.last()).next
    }
}

/// Everything that was done about some packets.
pub open spec fn done_about(start: AcceptSetup, packets: Seq<acl::AclPacketView>) -> Seq<ActionView>
    decreases packets.len(),
{
    if packets.len() == 0 {
        seq![]
    } else {
        done_about(start, packets.drop_last()) + after(start, packets.drop_last()).on_packet(
            packets.last(),
        ).actions
    }
}

/// Whether a packet opens a channel of the service `psm`, the remote's id of which is
/// `remote`.
pub open spec fn opens(conn_handle: u16, p: acl::AclPacketView, psm: u16, remote: u16) -> bool {
    &&& channels::signal_for(conn_handle, p) matches Some(s)
    &&& s.code == SIG_CONNECTION_REQUEST
    &&& l2cap::connection_request_of(s.data) == Some((psm, remote))
}

/// The answer that grants what a packet opens.
pub open spec fn grant(conn_handle: u16, p: acl::AclPacketView, c: Channel) -> ActionView {
    ActionView::Send(
        channels::signal_packet(
            conn_handle,
            SIG_CONNECTION_RESPONSE,
            (channels::signal_for(conn_handle, p)->0).identifier,
            l2cap::connection_response_data(c.local_cid, c.remote_cid, 0),
        ),
    )
}

/// Whether the remote opened `c` by packet `i`, and was granted it.
pub open spec fn granted(
    start: AcceptSetup,
    packets: Seq<acl::AclPacketView>,
    i: int,
    c: Channel,
) -> bool {
    &&& 0 <= i < packets.len()
    &&& granted_cid(c.psm) == Some(c.local_cid)
    &&& opens(start.conn_handle, packets[i], c.psm, c.remote_cid)
    &&& done_about(start, packets).contains(grant(start.conn_handle, packets[i], c))
}

/// Whether the remote accepted our configuration of `c` by a packet behind packet `i`.
pub open spec fn accepted(
    start: AcceptSetup,
    packets: Seq<acl::AclPacketView>,
    i: int,
    c: Channel,
) -> bool {
    exists|j: int|
        i < j < packets.len() && channels::accepts(
            start.conn_handle,
            #[trigger] packets[j],
            c.local_cid,
        )
}

/// Whether the remote configured `c` by a packet behind packet `i`, and was answered with
/// its options.
pub open spec fn answered(
    start: AcceptSetup,
    packets: Seq<acl::AclPacketView>,
    i: int,
    c: Channel,
) -> bool {
    exists|j: int|
        i < j < packets.len() && channels::configures(
            start.conn_handle,
            #[trigger] packets[j],
            c.local_cid,
        ) && done_about(start, packets).contains(
            channels::echo(start.conn_handle, packets[j], c.remote_cid),
        )
}

/// What [`after`] has come to, by the packets that arrived.
spec fn explained(start: AcceptSetup, packets: Seq<acl::AclPacketView>) -> bool {
    let now = after(start, packets);
    &&& now.conn_handle == start.conn_handle
    &&& now.control matches Some(c) ==> c.psm == PSM_HID_CONTROL && exists|i: int| #[trigger]
        granted(start, packets, i, c)
    &&& now.interrupt matches Some(c) ==> c.psm == PSM_HID_INTERRUPT && exists|i: int| #[trigger]
        granted(start, packets, i, c) && (now.ours_configured ==> accepted(start, packets, i, c))
            && (now.theirs_configured ==> answered(start, packets, i, c))
    &&& now.interrupt is None ==> !now.ours_configured && !now.theirs_configured
}

/// What was done stays done as more packets arrive.
proof fn more_is_done(start: AcceptSetup, packets: Seq<acl::AclPacketView>, a: ActionView)
    requires
        packets.len() > 0,
        done_about(start, packets.drop_last()).contains(a) || after(
            start,
            packets.drop_last(),
        ).on_packet(packets.last()).actions.contains(a),
    ensures
        done_about(start, packets).contains(a),
{
    let before = done_about(start, packets.drop_last());
    let new = after(start, packets.drop_last()).on_packet(packets.last()).actions;
    let all = done_about(start, packets);
    if before.contains(a) {
        let j = choose|j: int| 0 <= j < before.len() && before[j] == a;
        assert(all[j] == a);
    } else {
        let j = choose|j: int| 0 <= j < new.len() && new[j] == a;
        assert(all[before.len() + j] == a);
    }
}

/// What a packet granted stays granted, accepted and answered as more packets arrive.
proof fn more_is_granted(start: AcceptSetup, packets: Seq<acl::AclPacketView>, i: int, c: Channel)
    requires
        packets.len() > 0,
        granted(start, packets.drop_last(), i, c),
    ensures
        granted(start, packets, i, c),
        accepted(start, packets.drop_last(), i, c) ==> accepted(start, packets, i, c),
        answered(start, packets.drop_last(), i, c) ==> answered(start, packets, i, c),
{
    let most = packets.drop_last();
    more_is_done(start, packets, grant(start.conn_handle, packets[i], c));
    if accepted(start, most, i, c) {
        let j = choose|j: int|
            i < j < most.len() && channels::accepts(
                start.conn_handle,
                #[trigger] most[j],
                c.local_cid,
            );
        assert(packets[j] == most[j]);
    }
    if answered(start, most, i, c) {
        let j = choose|j: int|
            i < j < most.len() && channels::configures(
                start.conn_handle,
                #[trigger] most[j],
                c.local_cid,
            ) && done_about(start, most).contains(
                channels::echo(start.conn_handle, most[j], c.remote_cid),
            );
        assert(packets[j] == most[j]);
        more_is_done(start, packets, channels::echo(start.conn_handle, packets[j], c.remote_cid));
    }
}

/// What a turn does to the channels: a packet opens one of them, or says something of the
/// interrupt channel, or neither.
proof fn a_turn(was: AcceptSetup, p: acl::AclPacketView)
    requires
        was.control matches Some(c) ==> c.local_cid == FIRST_DYNAMIC_CID,
    ensures
        was.on_packet(p).next.conn_handle == was.conn_handle,
        was.on_packet(p).next.control == was.control || opened_by(
            was,
            p,
            PSM_HID_CONTROL,
            was.on_packet(p).next.control,
        ),
        kept_by(was, p) || {
            &&& opened_by(was, p, PSM_HID_INTERRUPT, was.on_packet(p).next.interrupt)
            &&& !was.on_packet(p).next.ours_configured
            &&& !was.on_packet(p).next.theirs_configured
        },
{
    let turn = was.on_packet(p);
    match channels::signal_for(was.conn_handle, p) {
        Some(s) => if s.code == SIG_CONNECTION_REQUEST {
            assert(turn == was.on_request(s.identifier, s.data));
            a_request(was, p, s);
        } else if s.code == SIG_CONFIGURE_REQUEST {
            assert(turn == was.on_configure(s.identifier, s.data));
            if let Some((dest, options)) = l2cap::configure_request_of(s.data) {
                let e = channels::echo(was.conn_handle, p, was.reply_to(dest));
                assert(turn.actions[0] == e);
                assert(turn.actions.contains(e));
            }
            assert(kept_by(was, p));
        } else {
            assert(kept_by(was, p));
        },
        None => {
            assert(kept_by(was, p));
        },
    }
}

/// What a request does to the channels.
proof fn a_request(was: AcceptSetup, p: acl::AclPacketView, s: l2cap::SignalView)
    requires
        channels::signal_for(was.conn_handle, p) == Some(s),
        s.code == SIG_CONNECTION_REQUEST,
    ensures
        was.on_packet(p).next.conn_handle == was.conn_handle,
        was.on_packet(p).next.control == was.control || opened_by(
            was,
            p,
            PSM_HID_CONTROL,
            was.on_packet(p).next.control,
        ),
        kept_by(was, p) || {
            &&& opened_by(was, p, PSM_HID_INTERRUPT, was.on_packet(p).next.interrupt)
            &&& !was.on_packet(p).next.ours_configured
            &&& !was.on_packet(p).next.theirs_configured
        },
{
    let turn = was.on_packet(p);
    assert(turn == was.on_request(s.identifier, s.data));
    match l2cap::connection_request_of(s.data) {
        Some((psm, cid)) => match granted_cid(psm) {
            Some(ours) => {
                let c = Channel { psm, local_cid: ours, remote_cid: cid };
                let g = grant(was.conn_handle, p, c);
                assert(turn.actions[1] == g);
                assert(turn.actions.contains(g));
                assert(opened_by(was, p, psm, Some(c)));
                if psm == PSM_HID_CONTROL {
                    assert(kept_by(was, p));
                }
            },
            None => {
                assert(kept_by(was, p));
            },
        },
        None => {
            assert(kept_by(was, p));
        },
    }
}

/// Whether a packet opened the channel `c` of a service, which was granted.
spec fn opened_by(was: AcceptSetup, p: acl::AclPacketView, psm: u16, c: Option<Channel>) -> bool {
    &&& c matches Some(c)
    &&& c.psm == psm
    &&& granted_cid(psm) == Some(c.local_cid)
    &&& opens(was.conn_handle, p, psm, c.remote_cid)
    &&& was.on_packet(p).actions.contains(grant(was.conn_handle, p, c))
}

/// Whether a packet left the interrupt channel in place, and said at most that it is
/// configured.
spec fn kept_by(was: AcceptSetup, p: acl::AclPacketView) -> bool {
    let turn = was.on_packet(p);
    &&& turn.next.interrupt == was.interrupt
    &&& turn.next.ours_configured && !was.ours_configured ==> (was.interrupt matches Some(c)
        && channels::accepts(was.conn_handle, p, c.local_cid))
    &&& turn.next.theirs_configured && !was.theirs_configured ==> (was.interrupt matches Some(c)
        && channels::configures(was.conn_handle, p, c.local_cid) && (c.local_cid
        != FIRST_DYNAMIC_CID ==> turn.actions.contains(
        channels::echo(was.conn_handle, p, c.remote_cid),
    )))
}

/// The control channel is accounted for as one more packet arrives.
proof fn control_stays_explained(start: AcceptSetup, packets: Seq<acl::AclPacketView>)
    requires
        packets.len() > 0,
        explained(start, packets.drop_last()),
        ({
            let was = after(start, packets.drop_last());
            let c = after(start, packets).control;
            c == was.control || opened_by(was, packets.last(), PSM_HID_CONTROL, c)
        }),
    ensures
        after(start, packets).control matches Some(c) ==> c.psm == PSM_HID_CONTROL && exists|i: int|
         #[trigger] granted(start, packets, i, c),
{
    let most = packets.drop_last();
    let was = after(start, most);
    if let Some(c) = after(start, packets).control {
        if was.control == Some(c) {
            let i = choose|i: int| #[trigger] granted(start, most, i, c);
            more_is_granted(start, packets, i, c);
        } else {
            more_is_done(start, packets, grant(start.conn_handle, packets.last(), c));
            assert(granted(start, packets, packets.len() - 1, c));
        }
    }
}

/// The interrupt channel is accounted for as one more packet arrives.
proof fn interrupt_stays_explained(start: AcceptSetup, packets: Seq<acl::AclPacketView>)
    requires
        packets.len() > 0,
        explained(start, packets.drop_last()),
        ({
            let was = after(start, packets.drop_last());
            let now = after(start, packets);
            kept_by(was, packets.last()) || {
                &&& opened_by(was, packets.last(), PSM_HID_INTERRUPT, now.interrupt)
                &&& !now.ours_configured
                &&& !now.theirs_configured
            }
        }),
    ensures
        ({
            let now = after(start, packets);
            &&& now.interrupt matches Some(c) ==> c.psm == PSM_HID_INTERRUPT && exists|i: int|
             #[trigger]
                granted(start, packets, i, c) && (now.ours_configured ==> accepted(
                    start,
                    packets,
                    i,
                    c,
                )) && (now.theirs_configured ==> answered(start, packets, i, c))
            &&& now.interrupt is None ==> !now.ours_configured && !now.theirs_configured
        }),
{
    let most = packets.drop_last();
    let p = packets.last();
    let k = packets.len() - 1;
    let was = after(start, most);
    let now = after(start, packets);
    assert(packets[k] == p);
    if let Some(c) = now.interrupt {
        if kept_by(was, p) {
            let i = choose|i: int| #[trigger]
                granted(start, most, i, c) && (was.ours_configured ==> accepted(start, most, i, c))
                    && (was.theirs_configured ==> answered(start, most, i, c));
            more_is_granted(start, packets, i, c);
            if now.ours_configured && !was.ours_configured {
                assert(channels::accepts(start.conn_handle, packets[k], c.local_cid));
                assert(accepted(start, packets, i, c));
            }
            if now.theirs_configured && !was.theirs_configured {
                assert(channels::configures(start.conn_handle, packets[k], c.local_cid));
                more_is_done(start, packets, channels::echo(start.conn_handle, p, c.remote_cid));
                assert(answered(start, packets, i, c));
            }
            assert(granted(start, packets, i, c));
        } else {
            more_is_done(start, packets, grant(start.conn_handle, p, c));
            assert(granted(start, packets, k, c));
        }
    }
}

/// Every packet that arrives is accounted for.
proof fn stays_explained(start: AcceptSetup, packets: Seq<acl::AclPacketView>)
    requires
        start == AcceptSetup::initial(start.conn_handle),
    ensures
        explained(start, packets),
    decreases packets.len(),
{
    if packets.len() > 0 {
        stays_explained(start, packets.drop_last());
        a_turn(after(start, packets.drop_last()), packets.last());
        control_stays_explained(start, packets);
        interrupt_stays_explained(start, packets);
    }
}

/// Both channels are reported only once the remote opened and was granted both, and once
/// the interrupt channel, on which input arrives, is configured: behind its request, the
/// remote accepted our configuration of it, and its own was answered with its options.
pub proof fn ready_means_granted_and_configured(
    conn_handle: u16,
    packets: Seq<acl::AclPacketView>,
    last: acl::AclPacketView,
    control: Channel,
    interrupt: Channel,
)
    requires
        after(AcceptSetup::initial(conn_handle), packets).on_packet(last).verdict == (
        VerdictView::Ready { control, interrupt }),
    ensures
        control.psm == PSM_HID_CONTROL,
        interrupt.psm == PSM_HID_INTERRUPT,
        ({
            let start = AcceptSetup::initial(conn_handle);
            let all = packets.push(last);
            &&& exists|i: int| #[trigger] granted(start, all, i, control)
            &&& exists|i: int| #[trigger]
                granted(start, all, i, interrupt) && accepted(start, all, i, interrupt) && answered(
                    start,
                    all,
                    i,
                    interrupt,
                )
        }),
{
    let all = packets.push(last);
    stays_explained(AcceptSetup::initial(conn_handle), all);
    assert(all.drop_last() =~= packets);
    assert(all.last() == last);
}

/// What the remote opened is reported under the remote's own ids: once it has asked for
/// both services, in either order, accepted our configuration of the interrupt channel and
/// sent its own, in either order, both channels are open as it asked for them.
pub proof fn both_requests_and_a_configuration_open_the_channels(
    s: AcceptSetup,
    first_ident: u8,
    second_ident: u8,
    third_ident: u8,
    control_cid: u16,
    interrupt_cid: u16,
    options: Seq<u8>,
    control_first: bool,
    accepted_first: bool,
)
    ensures
        ({
            let ours = (FIRST_DYNAMIC_CID + 1) as u16;
            let c = l2cap::connection_request_data(PSM_HID_CONTROL, control_cid);
            let i = l2cap::connection_request_data(PSM_HID_INTERRUPT, interrupt_cid);
            let yes = l2cap::configure_response_data(ours, options);
            let theirs = l2cap::configure_request_data(ours, CHANNEL_MTU);
            let asked = if control_first {
                s.on_request(first_ident, c).next.on_request(second_ident, i).next
            } else {
                s.on_request(first_ident, i).next.on_request(second_ident, c).next
            };
            let turn = if accepted_first {
                asked.on_configured(yes).next.on_configure(third_ident, theirs)
            } else {
                asked.on_configure(third_ident, theirs).next.on_configured(yes)
            };
            turn.verdict == (VerdictView::Ready {
                control: Channel {
                    psm: PSM_HID_CONTROL,
                    local_cid: FIRST_DYNAMIC_CID,
                    remote_cid: control_cid,
                },
                interrupt: Channel {
                    psm: PSM_HID_INTERRUPT,
                    local_cid: ours,
                    remote_cid: interrupt_cid,
                },
            })
        }),
{
    let ours = (FIRST_DYNAMIC_CID + 1) as u16;
    l2cap::connection_request_round_trips(PSM_HID_CONTROL, control_cid);
    l2cap::connection_request_round_trips(PSM_HID_INTERRUPT, interrupt_cid);
    l2cap::configure_request_round_trips(ours, CHANNEL_MTU);
    l2cap::an_acceptance_names_its_channel(ours, options);
}

/// A request for one of the two services is granted as a success, with an id of its own for
/// each, told together with the remote's; the channel is then configured for 672 bytes. Any
/// other is refused, and changes nothing.
pub proof fn a_request_is_granted_or_refused(s: AcceptSetup, ident: u8, psm: u16, theirs: u16)
    ensures
        ({
            let t = s.on_request(ident, l2cap::connection_request_data(psm, theirs));
            let reply = |ours: u16, result: u16|
                channels::signal_packet(
                    s.conn_handle,
                    0x03,
                    ident,
                    l2cap::connection_response_data(ours, theirs, result),
                );
            if psm == 0x11 || psm == 0x13 {
                let ours: u16 = if psm == 0x11 {
                    0x40
                } else {
                    0x41
                };
                let c = Channel { psm, local_cid: ours, remote_cid: theirs };
                &&& t.actions.len() == 3
                &&& t.actions[1] == ActionView::Send(reply(ours, 0))
                &&& t.actions[2] == ActionView::Send(
                    channels::signal_packet(
                        s.conn_handle,
                        0x04,
                        channels::next_ident(ident),
                        l2cap::configure_request_data(theirs, 672),
                    ),
                )
                &&& if psm == 0x11 {
                    t.next.control == Some(c) && t.next.interrupt == s.interrupt
                } else {
                    t.next.interrupt == Some(c) && t.next.control == s.control
                }
            } else {
                &&& t.next == s
                &&& t.actions == seq![ActionView::TrySend(reply(0, 2))]
            }
        }),
{
    l2cap::connection_request_round_trips(psm, theirs);
}

/// A configuration is answered under its own identifier with its own options, to the remote's
/// own id of the channel that it names; for a channel that is not open, to the id that it
/// names.
pub proof fn a_configuration_is_answered(
    s: AcceptSetup,
    ident: u8,
    dest: u16,
    flags: u16,
    options: Seq<u8>,
)
    ensures
        ({
            let t = s.on_configure(ident, l2cap::two(dest) + l2cap::two(flags) + options);
            let to = if s.control matches Some(c) && c.local_cid == dest {
                (s.control->0).remote_cid
            } else if s.interrupt matches Some(i) && i.local_cid == dest {
                (s.interrupt->0).remote_cid
            } else {
                dest
            };
            t.actions == seq![
                ActionView::Send(
                    channels::signal_packet(
                        s.conn_handle,
                        0x05,
                        ident,
                        l2cap::configure_response_data(to, options),
                    ),
                ),
            ]
        }),
{
    let data = l2cap::two(dest) + l2cap::two(flags) + options;
    assert(l2cap::configure_request_of(data) == Some((dest, options))) by {
        l2cap::fields_are_read_where_they_stand(dest, flags, 0, 0, options);
    }
}

/// Only what is said of the interrupt channel counts: an acceptance of our configuration of
/// it, and a configuration of it. A refusal, and whatever is said of another channel, do not.
pub proof fn only_the_interrupt_channel_counts(
    s: AcceptSetup,
    ident: u8,
    cid: u16,
    flags: u16,
    result: u16,
    options: Seq<u8>,
)
    ensures
        ({
            let ours = s.interrupt matches Some(i) && i.local_cid == cid;
            let yes = s.on_configured(
                l2cap::two(cid) + l2cap::two(flags) + l2cap::two(result) + options,
            );
            let theirs = s.on_configure(ident, l2cap::two(cid) + l2cap::two(flags) + options);
            &&& yes.next.ours_configured == (s.ours_configured || ours && result == 0)
            &&& yes.next.theirs_configured == s.theirs_configured
            &&& theirs.next.theirs_configured == (s.theirs_configured || ours)
            &&& theirs.next.ours_configured == s.ours_configured
            &&& yes.actions.len() == 0
        }),
{
    let said = l2cap::two(cid) + l2cap::two(flags) + l2cap::two(result) + options;
    let asked = l2cap::two(cid) + l2cap::two(flags) + options;
    assert(l2cap::configure_response_of(said) == Some((cid, result))
        && l2cap::configure_request_of(asked) == Some((cid, options))) by {
        l2cap::fields_are_read_where_they_stand(cid, flags, result, 0, options);
    }
}

/// A channel that the remote closes ends the exchange and is confirmed with what it said;
/// traffic of other links and channels is ignored.
pub proof fn a_closing_is_confirmed(s: AcceptSetup, ident: u8, data: Seq<u8>, p: acl::AclPacketView)
    ensures
        s.on_closing(ident, data).verdict is Failed,
        s.on_closing(ident, data).actions == seq![
            ActionView::TrySend(channels::signal_packet(s.conn_handle, 0x07, ident, data)),
        ],
        p.conn_handle != s.conn_handle || p.cid != 1 ==> s.on_packet(p) == (AcceptTurn {
            next: s,
            actions: seq![],
            verdict: VerdictView::Waiting,
        }),
{
}

/// The exchange is over exactly once both channels are open and the interrupt channel is
/// configured from both sides; then both are told as they are.
pub proof fn over_once_everything_is_said(s: AcceptSetup)
    ensures
        s.settled() is Ready <==> s.control is Some && s.interrupt is Some && s.ours_configured
            && s.theirs_configured,
        s.settled() matches VerdictView::Ready { control, interrupt } ==> s.control == Some(control)
            && s.interrupt == Some(interrupt),
{
}

} // verus!
