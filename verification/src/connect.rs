//! Opening one L2CAP channel and configuring it both ways.
use vstd::prelude::*;
use crate::acl;
use crate::acl::AclPacket;
use crate::channels;
use crate::channels::{
    bump, frame_signal, psm_note, psm_note_value, push_bool, read_signal, Action, ActionView,
    CHANNEL_MTU,
};
use crate::error;
use crate::error::Error;
use crate::l2cap;
use crate::l2cap::{
    configure_request, configure_response, connection_request, parse_configure_request,
    parse_configure_response_full, parse_connection_response, Channel, SIG_CONFIGURE_REQUEST,
    SIG_CONFIGURE_RESPONSE, SIG_CONNECTION_REQUEST, SIG_CONNECTION_RESPONSE,
    SIG_DISCONNECTION_REQUEST, SIG_DISCONNECTION_RESPONSE,
};
use crate::text;
use crate::text::push_text;

verus! {

/// Whether the opening goes on, and how it ended where it does not.
#[derive(Debug, Clone, PartialEq, Eq)]
pub enum Opening {
    Waiting,
    Open(Channel),
    Failed(Error),
}

/// An [`Opening`] with its error by its view.
#[verifier::ext_equal]
pub enum OpeningView {
    Waiting,
    Open(Channel),
    Failed(error::ErrorView),
}

impl View for Opening {
    type V = OpeningView;

    open spec fn view(&self) -> OpeningView {
        match self {
            Opening::Waiting => OpeningView::Waiting,
            Opening::Open(c) => OpeningView::Open(*c),
            Opening::Failed(e) => OpeningView::Failed(e@),
        }
    }
}

/// One channel while it comes up.
///
/// Requesting a channel and configuring our own side leaves the remote waiting for an
/// answer that it will never get. Signalling for other channels is handled while
/// waiting: the controller may configure one channel while another is being set up.
#[derive(Debug, Clone, Copy, PartialEq, Eq, Structural)]
pub struct ChannelSetup {
    pub conn_handle: u16,
    pub psm: u16,
    pub local_cid: u16,
    /// Zero until the channel is granted.
    pub remote_cid: u16,
    pub ours_configured: bool,
    pub theirs_configured: bool,
    pub ident: u8,
}

/// What a turn of the exchange leads to.
#[verifier::ext_equal]
pub struct ChannelTurn {
    pub next: ChannelSetup,
    pub actions: Seq<ActionView>,
    pub verdict: OpeningView,
}

impl ChannelSetup {
    /// The start of the exchange.
    pub open spec fn initial(conn_handle: u16, psm: u16, local_cid: u16) -> ChannelSetup {
        ChannelSetup {
            conn_handle,
            psm,
            local_cid,
            remote_cid: 0,
            ours_configured: false,
            theirs_configured: false,
            ident: 1,
        }
    }

    /// Nothing happens.
    pub open spec fn ignoring(self) -> ChannelTurn {
        ChannelTurn { next: self, actions: seq![], verdict: OpeningView::Waiting }
    }

    /// The channel is open once it is granted and configured from both sides.
    pub open spec fn settled(self) -> OpeningView {
        if self.remote_cid != 0 && self.ours_configured && self.theirs_configured {
            OpeningView::Open(
                Channel { psm: self.psm, local_cid: self.local_cid, remote_cid: self.remote_cid },
            )
        } else {
            OpeningView::Waiting
        }
    }

    /// The state stays, whatever it has come to.
    pub open spec fn staying(self, actions: Seq<ActionView>) -> ChannelTurn {
        ChannelTurn { next: self, actions, verdict: self.settled() }
    }

    /// The exchange fails.
    pub open spec fn failing(self, actions: Seq<ActionView>, message: Seq<char>) -> ChannelTurn {
        ChannelTurn {
            next: self,
            actions,
            verdict: OpeningView::Failed(error::ErrorView::Protocol(message)),
        }
    }

    /// The remote answers the request. A pending answer is normal while it
    /// authenticates.
    pub open spec fn on_response(self, data: Seq<u8>) -> ChannelTurn {
        match l2cap::connection_response_of(data) {
            Some(r) if r.source_cid == self.local_cid => if r.result == 0 {
                let id = channels::next_ident(self.ident);
                ChannelSetup { remote_cid: r.dest_cid, ident: id, ..self }.staying(
                    seq![
                        ActionView::Note(
                            channels::psm_text(self.psm, ": channel granted, remote cid 0x"@)
                                + text::hex4(r.dest_cid),
                        ),
                        ActionView::Send(
                            channels::signal_packet(
                                self.conn_handle,
                                SIG_CONFIGURE_REQUEST,
                                id,
                                l2cap::configure_request_data(r.dest_cid, CHANNEL_MTU),
                            ),
                        ),
                    ],
                )
            } else if r.result == 1 {
                self.staying(seq![ActionView::Note(channels::psm_text(self.psm, ": pending…"@))])
            } else {
                self.failing(
                    seq![],
                    channels::psm_text(self.psm, " refused: result 0x"@) + text::hex4(r.result),
                )
            },
            _ => self.ignoring(),
        }
    }

    /// The remote answers a configuration of ours: it counts where it names this channel.
    pub open spec fn on_configured(self, data: Seq<u8>) -> ChannelTurn {
        match l2cap::configure_response_of(data) {
            None => self.staying(seq![]),
            Some((cid, result)) => if cid != self.local_cid {
                self.staying(seq![])
            } else if result == 0 {
                ChannelSetup { ours_configured: true, ..self }.staying(
                    seq![ActionView::Note(channels::psm_text(self.psm, ": our side configured"@))],
                )
            } else {
                self.failing(
                    seq![],
                    channels::psm_text(self.psm, " configuration refused: 0x"@) + text::hex4(
                        result,
                    ),
                )
            },
        }
    }

    /// The remote configures a channel, ours or another: it is answered either way.
    pub open spec fn on_configure(self, ident: u8, data: Seq<u8>) -> ChannelTurn {
        match l2cap::configure_request_of(data) {
            None => self.staying(seq![]),
            Some((dest, options)) => {
                let ours = dest == self.local_cid;
                let send = ActionView::Send(
                    channels::signal_packet(
                        self.conn_handle,
                        SIG_CONFIGURE_RESPONSE,
                        ident,
                        l2cap::configure_response_data(
                            if ours {
                                self.remote_cid
                            } else {
                                dest
                            },
                            options,
                        ),
                    ),
                );
                if ours {
                    ChannelSetup { theirs_configured: true, ..self }.staying(
                        seq![
                            send,
                            ActionView::Note(
                                channels::psm_text(self.psm, ": their side configured"@),
                            ),
                        ],
                    )
                } else {
                    self.staying(seq![send])
                }
            },
        }
    }

    /// The remote closes a channel: it is told so, and the exchange is over.
    pub open spec fn on_closing(self, ident: u8, data: Seq<u8>) -> ChannelTurn {
        self.failing(
            seq![
                ActionView::Send(
                    channels::signal_packet(
                        self.conn_handle,
                        SIG_DISCONNECTION_RESPONSE,
                        ident,
                        data,
                    ),
                ),
            ],
            channels::psm_text(self.psm, ": remote closed the channel"@),
        )
    }

    /// What an inbound packet leads to.
    pub open spec fn on_packet(self, p: acl::AclPacketView) -> ChannelTurn {
        match channels::signal_for(self.conn_handle, p) {
            None => self.ignoring(),
            Some(s) => if s.code == SIG_CONNECTION_RESPONSE {
                self.on_response(s.data)
            } else if s.code == SIG_CONFIGURE_RESPONSE {
                self.on_configured(s.data)
            } else if s.code == SIG_CONFIGURE_REQUEST {
                self.on_configure(s.identifier, s.data)
            } else if s.code == SIG_DISCONNECTION_REQUEST {
                self.on_closing(s.identifier, s.data)
            } else {
                self.staying(seq![])
            },
        }
    }

    /// Whether `next`, `actions` and `verdict` are what a turn leads to.
    pub open spec fn turn_is(
        t: ChannelTurn,
        next: ChannelSetup,
        actions: Seq<Action>,
        verdict: Opening,
    ) -> bool {
        &&& next == t.next
        &&& channels::action_views(actions) == t.actions
        &&& verdict@ == t.verdict
    }

    /// Begin opening a channel, and the packet to begin it with.
    pub fn new(conn_handle: u16, psm: u16, local_cid: u16) -> (r: (ChannelSetup, Vec<u8>))
        ensures
            r.0 == ChannelSetup::initial(conn_handle, psm, local_cid),
            r.1@ == channels::signal_packet(
                conn_handle,
                SIG_CONNECTION_REQUEST,
                1,
                l2cap::connection_request_data(psm, local_cid),
            ),
    {
        let data = connection_request(psm, local_cid);
        let packet = frame_signal(conn_handle, SIG_CONNECTION_REQUEST, 1, data.as_slice());
        (
            ChannelSetup {
                conn_handle,
                psm,
                local_cid,
                remote_cid: 0,
                ours_configured: false,
                theirs_configured: false,
                ident: 1,
            },
            packet,
        )
    }

    /// How the exchange stands.
    fn judge(&self) -> (v: Opening)
        ensures
            v@ == self.settled(),
    {
        if self.remote_cid != 0 && self.ours_configured && self.theirs_configured {
            Opening::Open(
                Channel { psm: self.psm, local_cid: self.local_cid, remote_cid: self.remote_cid },
            )
        } else {
            Opening::Waiting
        }
    }

    /// Handle a connection response.
    fn take_response(&mut self, data: &[u8]) -> (r: (Vec<Action>, Opening))
        ensures
            ChannelSetup::turn_is(old(self).on_response(data@), *final(self), r.0@, r.1),
    {
        let mut out: Vec<Action> = Vec::new();
        assert(channels::action_views(out@) =~= seq![]);
        let r = match parse_connection_response(data) {
            Some(r) => r,
            None => {
                return (out, Opening::Waiting);
            },
        };
        if r.source_cid != self.local_cid {
            return (out, Opening::Waiting);
        }
        if r.result == 0 {
            self.remote_cid = r.dest_cid;
            self.ident = bump(self.ident);
            let note = Action::Note(
                psm_note_value(self.psm, ": channel granted, remote cid 0x", r.dest_cid),
            );
            let config = configure_request(r.dest_cid, CHANNEL_MTU);
            let send = Action::Send(
                frame_signal(
                    self.conn_handle,
                    SIG_CONFIGURE_REQUEST,
                    self.ident,
                    config.as_slice(),
                ),
            );
            let ghost views = seq![note@, send@];
            out.push(note);
            out.push(send);
            assert(channels::action_views(out@) =~= views);
            (out, self.judge())
        } else if r.result == 1 {
            let note = Action::Note(psm_note(self.psm, ": pending…"));
            let ghost v = note@;
            out.push(note);
            assert(channels::action_views(out@) =~= seq![v]);
            (out, self.judge())
        } else {
            (
                out,
                Opening::Failed(
                    Error::Protocol(psm_note_value(self.psm, " refused: result 0x", r.result)),
                ),
            )
        }
    }

    /// Handle a configuration request.
    fn take_configure(&mut self, ident: u8, data: &[u8]) -> (r: (Vec<Action>, Opening))
        ensures
            ChannelSetup::turn_is(old(self).on_configure(ident, data@), *final(self), r.0@, r.1),
    {
        let mut out: Vec<Action> = Vec::new();
        assert(channels::action_views(out@) =~= seq![]);
        if let Some((dest, options)) = parse_configure_request(data) {
            let ours: bool = dest == self.local_cid;
            let reply_to: u16 = if ours {
                self.remote_cid
            } else {
                dest
            };
            let body = configure_response(reply_to, options.as_slice());
            let send = Action::Send(
                frame_signal(self.conn_handle, SIG_CONFIGURE_RESPONSE, ident, body.as_slice()),
            );
            let ghost sv = send@;
            out.push(send);
            assert(channels::action_views(out@) =~= seq![sv]);
            if ours {
                self.theirs_configured = true;
                let note = Action::Note(psm_note(self.psm, ": their side configured"));
                let ghost nv = note@;
                out.push(note);
                assert(channels::action_views(out@) =~= seq![sv, nv]);
            }
        }
        (out, self.judge())
    }

    /// Take one inbound packet into account: what to do, and whether it is over.
    pub fn step(&mut self, packet: &AclPacket) -> (r: (Vec<Action>, Opening))
        ensures
            ChannelSetup::turn_is(old(self).on_packet(packet@), *final(self), r.0@, r.1),
    {
        let mut out: Vec<Action> = Vec::new();
        assert(channels::action_views(out@) =~= seq![]);
        let s = match read_signal(self.conn_handle, packet) {
            Some(s) => s,
            None => {
                return (out, Opening::Waiting);
            },
        };
        let data = s.data.as_slice();
        if s.code == SIG_CONNECTION_RESPONSE {
            self.take_response(data)
        } else if s.code == SIG_CONFIGURE_RESPONSE {
            match parse_configure_response_full(data) {
                None => (out, self.judge()),
                Some((cid, result)) => {
                    if cid != self.local_cid {
                        (out, self.judge())
                    } else if result == 0 {
                        self.ours_configured = true;
                        let note = Action::Note(psm_note(self.psm, ": our side configured"));
                        let ghost v = note@;
                        out.push(note);
                        assert(channels::action_views(out@) =~= seq![v]);
                        (out, self.judge())
                    } else {
                        (
                            out,
                            Opening::Failed(
                                Error::Protocol(
                                    psm_note_value(
                                        self.psm,
                                        " configuration refused: 0x",
                                        result,
                                    ),
                                ),
                            ),
                        )
                    }
                },
            }
        } else if s.code == SIG_CONFIGURE_REQUEST {
            self.take_configure(s.identifier, data)
        } else if s.code == SIG_DISCONNECTION_REQUEST {
            let reply = Action::Send(
                frame_signal(self.conn_handle, SIG_DISCONNECTION_RESPONSE, s.identifier, data),
            );
            let ghost v = reply@;
            out.push(reply);
            assert(channels::action_views(out@) =~= seq![v]);
            (
                out,
                Opening::Failed(Error::Protocol(psm_note(self.psm, ": remote closed the channel"))),
            )
        } else {
            (out, self.judge())
        }
    }

    /// The error of an exchange that ran out of time.
    pub fn timed_out(&self) -> (e: Error)
        ensures
            e@ == error::ErrorView::Protocol(
                channels::psm_text(self.psm, " timed out (granted="@) + channels::bool_text(
                    self.remote_cid != 0,
                ) + ", ours="@ + channels::bool_text(self.ours_configured) + ", theirs="@
                    + channels::bool_text(self.theirs_configured) + ")"@,
            ),
    {
        let mut m = psm_note(self.psm, " timed out (granted=");
        push_bool(&mut m, self.remote_cid != 0);
        push_text(&mut m, ", ours=");
        push_bool(&mut m, self.ours_configured);
        push_text(&mut m, ", theirs=");
        push_bool(&mut m, self.theirs_configured);
        push_text(&mut m, ")");
        Error::Protocol(m)
    }
}

/// A channel is reported open only when it is granted and configured from both sides.
pub proof fn open_means_configured_both_ways(s: ChannelSetup, p: acl::AclPacketView)
    requires
        s.on_packet(p).verdict is Open,
    ensures
        ({
            let n = s.on_packet(p).next;
            &&& n.remote_cid != 0
            &&& n.ours_configured
            &&& n.theirs_configured
            &&& s.on_packet(p).verdict == OpeningView::Open(
                Channel { psm: s.psm, local_cid: s.local_cid, remote_cid: n.remote_cid },
            )
        }),
{
}

/// The exchange after some packets.
pub open spec fn after(start: ChannelSetup, packets: Seq<acl::AclPacketView>) -> ChannelSetup
    decreases packets.len(),
{
    if packets.len() == 0 {
        start
    } else {
        after(start, packets.drop_last()).on_packet(packets.last()).next
    }
}

/// Everything that was done about some packets.
pub open spec fn done_about(start: ChannelSetup, packets: Seq<acl::AclPacketView>) -> Seq<
    ActionView,
>
    decreases packets.len(),
{
    if packets.len() == 0 {
        seq![]
    } else {
        done_about(start, packets.drop_last()) + after(start, packets.drop_last()).on_packet(
            packets.last(),
        ).actions
    }
}

/// Whether a packet grants the channel that we call `local` as the remote's `remote`.
pub open spec fn grants(conn_handle: u16, p: acl::AclPacketView, local: u16, remote: u16) -> bool {
    &&& channels::signal_for(conn_handle, p) matches Some(s)
    &&& s.code == SIG_CONNECTION_RESPONSE
    &&& l2cap::connection_response_of(s.data) matches Some(r)
    &&& r.source_cid == local
    &&& r.dest_cid == remote
    &&& r.result == 0
}

/// What [`after`] and [`done_about`] have come to, by the packets that arrived.
spec fn explained(start: ChannelSetup, packets: Seq<acl::AclPacketView>) -> bool {
    let now = after(start, packets);
    &&& now.conn_handle == start.conn_handle
    &&& now.psm == start.psm
    &&& now.local_cid == start.local_cid
    &&& now.remote_cid != 0 ==> exists|i: int|
        0 <= i < packets.len() && grants(
            start.conn_handle,
            #[trigger] packets[i],
            start.local_cid,
            now.remote_cid,
        )
    &&& now.ours_configured ==> exists|i: int|
        0 <= i < packets.len() && channels::accepts(
            start.conn_handle,
            #[trigger] packets[i],
            start.local_cid,
        )
    &&& now.theirs_configured ==> exists|i: int, to: u16|
        0 <= i < packets.len() && channels::configures(
            start.conn_handle,
            #[trigger] packets[i],
            start.local_cid,
        ) && done_about(start, packets).contains(
            #[trigger] channels::echo(start.conn_handle, packets[i], to),
        )
}

/// What a packet does to the channel: it keeps the link, the service and our own id, and
/// whatever it changes it says itself.
proof fn a_turn(was: ChannelSetup, p: acl::AclPacketView)
    ensures
        ({
            let now = was.on_packet(p).next;
            &&& now.conn_handle == was.conn_handle
            &&& now.psm == was.psm
            &&& now.local_cid == was.local_cid
            &&& now.remote_cid == was.remote_cid || grants(
                was.conn_handle,
                p,
                was.local_cid,
                now.remote_cid,
            )
            &&& now.ours_configured == was.ours_configured || channels::accepts(
                was.conn_handle,
                p,
                was.local_cid,
            )
            &&& now.theirs_configured == was.theirs_configured || {
                &&& channels::configures(was.conn_handle, p, was.local_cid)
                &&& was.on_packet(p).actions.len() > 0
                &&& was.on_packet(p).actions[0] == channels::echo(
                    was.conn_handle,
                    p,
                    was.remote_cid,
                )
            }
        }),
{
}

/// Every packet that arrives is accounted for.
#[verifier::spinoff_prover]
#[verifier::rlimit(40)]
proof fn stays_explained(start: ChannelSetup, packets: Seq<acl::AclPacketView>)
    requires
        start.remote_cid == 0,
        !start.ours_configured,
        !start.theirs_configured,
    ensures
        explained(start, packets),
    decreases packets.len(),
{
    if packets.len() > 0 {
        let most = packets.drop_last();
        let p = packets.last();
        let k = most.len() as int;
        stays_explained(start, most);
        let was = after(start, most);
        let turn = was.on_packet(p);
        let now = turn.next;
        a_turn(was, p);
        let all = done_about(start, packets);
        assert(packets[k] == p);
        assert forall|i: int| 0 <= i < most.len() implies packets[i] == most[i] by {}
        if now.remote_cid != 0 {
            if now.remote_cid == was.remote_cid {
                let i = choose|i: int|
                    0 <= i < most.len() && grants(
                        start.conn_handle,
                        #[trigger] most[i],
                        start.local_cid,
                        was.remote_cid,
                    );
                assert(grants(start.conn_handle, packets[i], start.local_cid, now.remote_cid));
            } else {
                assert(grants(start.conn_handle, packets[k], start.local_cid, now.remote_cid));
            }
        }
        if now.ours_configured {
            if was.ours_configured {
                let i = choose|i: int|
                    0 <= i < most.len() && channels::accepts(
                        start.conn_handle,
                        #[trigger] most[i],
                        start.local_cid,
                    );
                assert(channels::accepts(start.conn_handle, packets[i], start.local_cid));
            } else {
                assert(channels::accepts(start.conn_handle, packets[k], start.local_cid));
            }
        }
        if now.theirs_configured {
            let before = done_about(start, most);
            if was.theirs_configured {
                let (i, to) = choose|i: int, to: u16|
                    0 <= i < most.len() && channels::configures(
                        start.conn_handle,
                        #[trigger] most[i],
                        start.local_cid,
                    ) && before.contains(
                        #[trigger] channels::echo(start.conn_handle, most[i], to),
                    );
                let e = channels::echo(start.conn_handle, most[i], to);
                let j = choose|j: int| 0 <= j < before.len() && before[j] == e;
                assert(all[j] == e);
                assert(packets[i] == most[i]);
            } else {
                let e = channels::echo(start.conn_handle, p, was.remote_cid);
                assert(turn.actions[0] == e);
                assert(all[before.len() as int] == e);
                assert(channels::configures(start.conn_handle, packets[k], start.local_cid));
            }
        }
    }
}

/// The exchange is driven to completion in both directions before the channel is reported
/// open: the remote granted this very channel under the id that is reported, it accepted
/// our configuration of this very channel, and its own configuration of it was answered
/// with its options.
pub proof fn an_open_channel_was_set_up_both_ways(
    conn_handle: u16,
    psm: u16,
    local_cid: u16,
    packets: Seq<acl::AclPacketView>,
    last: acl::AclPacketView,
    channel: Channel,
)
    requires
        after(ChannelSetup::initial(conn_handle, psm, local_cid), packets).on_packet(last).verdict
            == OpeningView::Open(channel),
    ensures
        channel.psm == psm,
        channel.local_cid == local_cid,
        channel.remote_cid != 0,
        exists|i: int|
            0 <= i < packets.push(last).len() && grants(
                conn_handle,
                #[trigger] packets.push(last)[i],
                local_cid,
                channel.remote_cid,
            ),
        exists|i: int|
            0 <= i < packets.push(last).len() && channels::accepts(
                conn_handle,
                #[trigger] packets.push(last)[i],
                local_cid,
            ),
        exists|i: int, to: u16|
            0 <= i < packets.push(last).len() && channels::configures(
                conn_handle,
                #[trigger] packets.push(last)[i],
                local_cid,
            ) && done_about(
                ChannelSetup::initial(conn_handle, psm, local_cid),
                packets.push(last),
            ).contains(#[trigger] channels::echo(conn_handle, packets.push(last)[i], to)),
{
    let start = ChannelSetup::initial(conn_handle, psm, local_cid);
    let all = packets.push(last);
    stays_explained(start, all);
    assert(all.drop_last() =~= packets);
    assert(all.last() == last);
}

/// What is said of another channel changes nothing here.
pub proof fn other_channels_change_nothing(s: ChannelSetup, data: Seq<u8>)
    requires
        l2cap::configure_response_of(data) matches Some(r) && r.0 != s.local_cid,
    ensures
        s.on_configured(data).next == s,
        s.on_configured(data).verdict == s.settled(),
{
}

/// A grant is followed by a configuration of the channel that was granted, which asks for 672
/// bytes; a pending answer changes nothing, a refusal ends the exchange, and an answer that is
/// for another channel is none.
pub proof fn a_grant_is_configured(s: ChannelSetup, theirs: u16, ours: u16, result: u16)
    ensures
        ({
            let t = s.on_response(l2cap::connection_response_data(theirs, ours, result));
            if ours != s.local_cid {
                t.next == s && t.actions.len() == 0 && t.verdict is Waiting
            } else if result == 0 {
                &&& t.next.remote_cid == theirs
                &&& t.next.ours_configured == s.ours_configured && t.next.theirs_configured
                    == s.theirs_configured
                &&& t.actions.len() == 2
                &&& t.actions[1] == ActionView::Send(
                    channels::signal_packet(
                        s.conn_handle,
                        0x04,
                        channels::next_ident(s.ident),
                        l2cap::configure_request_data(theirs, 672),
                    ),
                )
                &&& t.verdict !is Failed
            } else {
                &&& t.next == s
                &&& t.verdict is Failed <==> result != 1
            }
        }),
{
    l2cap::connection_response_round_trips(theirs, ours, result);
}

/// A configuration is answered under its own identifier with its own options, to the remote's
/// own id where it names this channel, and otherwise to the id that it names; only the former
/// counts.
pub proof fn a_configuration_is_answered(
    s: ChannelSetup,
    ident: u8,
    dest: u16,
    flags: u16,
    options: Seq<u8>,
)
    ensures
        ({
            let t = s.on_configure(ident, l2cap::two(dest) + l2cap::two(flags) + options);
            &&& t.actions.len() >= 1
            &&& t.actions[0] == ActionView::Send(
                channels::signal_packet(
                    s.conn_handle,
                    0x05,
                    ident,
                    l2cap::configure_response_data(
                        if dest == s.local_cid {
                            s.remote_cid
                        } else {
                            dest
                        },
                        options,
                    ),
                ),
            )
            &&& t.next.theirs_configured == (s.theirs_configured || dest == s.local_cid)
            &&& t.next.ours_configured == s.ours_configured
            &&& t.next.remote_cid == s.remote_cid
        }),
{
    let data = l2cap::two(dest) + l2cap::two(flags) + options;
    assert(l2cap::configure_request_of(data) == Some((dest, options))) by {
        l2cap::fields_are_read_where_they_stand(dest, flags, 0, 0, options);
    }
}

/// An acceptance of our configuration counts where it names this channel; a refusal of it ends
/// the exchange; what is said of another channel does neither.
pub proof fn an_acceptance_counts(
    s: ChannelSetup,
    cid: u16,
    flags: u16,
    result: u16,
    options: Seq<u8>,
)
    ensures
        ({
            let t = s.on_configured(
                l2cap::two(cid) + l2cap::two(flags) + l2cap::two(result) + options,
            );
            &&& t.next.ours_configured == (s.ours_configured || cid == s.local_cid && result == 0)
            &&& t.next.theirs_configured == s.theirs_configured
            &&& t.verdict is Failed <==> cid == s.local_cid && result != 0
        }),
{
    let data = l2cap::two(cid) + l2cap::two(flags) + l2cap::two(result) + options;
    assert(l2cap::configure_response_of(data) == Some((cid, result))) by {
        l2cap::fields_are_read_where_they_stand(cid, flags, result, 0, options);
    }
}

/// A channel that the remote closes ends the exchange and is confirmed with what it said;
/// traffic of other links and channels is ignored; and the channel is open exactly once it is
/// granted and configured from both sides.
pub proof fn a_channel_opens_and_closes(
    s: ChannelSetup,
    ident: u8,
    data: Seq<u8>,
    p: acl::AclPacketView,
)
    ensures
        s.on_closing(ident, data).verdict is Failed,
        s.on_closing(ident, data).actions == seq![
            ActionView::Send(channels::signal_packet(s.conn_handle, 0x07, ident, data)),
        ],
        p.conn_handle != s.conn_handle || p.cid != 1 ==> s.on_packet(p) == (ChannelTurn {
            next: s,
            actions: seq![],
            verdict: OpeningView::Waiting,
        }),
        s.settled() is Open <==> s.remote_cid != 0 && s.ours_configured && s.theirs_configured,
{
}

} // verus!
