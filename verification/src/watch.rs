//! A live trace of classic controllers that call in: whoever is paired is let in, every
//! question of the radio is answered, and everything that happens is said out loud, so
//! that a failure names itself.
use vstd::prelude::*;
use crate::acl;
use crate::acl::AclPacket;
use crate::bytes;
use crate::bytes::{push16, push_all};
use crate::channels;
use crate::channels::{bump, frame_signal, CHANNEL_MTU};
use crate::commands::address_params;
use crate::error;
use crate::error::Result;
use crate::hci;
use crate::hci::{Event, Opcode};
use crate::keystore;
use crate::keystore::{format_addr, get, Store};
use crate::l2cap;
use crate::l2cap::{
    configure_request, configure_response, connection_response, parse_configure_request,
    parse_connection_request, parse_signal, Signal, CID_SIGNALLING, FIRST_DYNAMIC_CID,
    PSM_HID_INTERRUPT, SIG_CONFIGURE_REQUEST, SIG_CONFIGURE_RESPONSE, SIG_CONNECTION_REQUEST,
    SIG_CONNECTION_RESPONSE, SIG_DISCONNECTION_REQUEST, SIG_DISCONNECTION_RESPONSE,
};
use crate::link;
use crate::link::push_listed_bytes;
use crate::text;
use crate::text::{push_decimal, push_hex2, push_hex4, push_text, with_byte, with_word};

verus! {

/// One thing to do on behalf of the trace.
#[derive(Debug, Clone, PartialEq, Eq)]
pub enum WatchAct {
    /// Something to say.
    Note(String),
    /// Accept the call of this device, and say what came of it.
    Accept([u8; 6]),
    /// Carry out a command, and go on whatever comes of it.
    Command {
        opcode: Opcode,
        params: Vec<u8>,
        /// Whether to wait until it is complete.
        wait: bool,
    },
    /// Store the key of this device.
    Save { address: [u8; 6], key: [u8; 16] },
    /// Send this packet, and go on whatever comes of it.
    Send(Vec<u8>),
    /// An input report came: the time without one starts over.
    Heard,
}

/// A [`WatchAct`] with its arrays as sequences and its text as characters.
#[verifier::ext_equal]
pub enum WatchActView {
    Note(Seq<char>),
    Accept(Seq<u8>),
    Command { opcode: Opcode, params: Seq<u8>, wait: bool },
    Save { address: Seq<u8>, key: Seq<u8> },
    Send(Seq<u8>),
    Heard,
}

impl View for WatchAct {
    type V = WatchActView;

    open spec fn view(&self) -> WatchActView {
        match self {
            WatchAct::Note(s) => WatchActView::Note(s@),
            WatchAct::Accept(a) => WatchActView::Accept(a@),
            WatchAct::Command { opcode, params, wait } => WatchActView::Command {
                opcode: *opcode,
                params: params@,
                wait: *wait,
            },
            WatchAct::Save { address, key } => WatchActView::Save { address: address@, key: key@ },
            WatchAct::Send(p) => WatchActView::Send(p@),
            WatchAct::Heard => WatchActView::Heard,
        }
    }
}

/// The acts of `all`, each by its view.
pub open spec fn act_views(all: Seq<WatchAct>) -> Seq<WatchActView> {
    all.map_values(|a: WatchAct| a@)
}

/// No act.
fn none() -> (v: Vec<WatchAct>)
    ensures
        act_views(v@) == Seq::<WatchActView>::empty(),
{
    let v: Vec<WatchAct> = Vec::new();
    assert(act_views(v@) =~= seq![]);
    v
}

/// One more act.
fn more(v: Vec<WatchAct>, a: WatchAct) -> (r: Vec<WatchAct>)
    ensures
        act_views(r@) == act_views(v@).push(a@),
{
    let mut r = v;
    let ghost before = r@;
    r.push(a);
    assert(act_views(r@) =~= act_views(before).push(a@));
    r
}

/// One act.
fn one(a: WatchAct) -> (v: Vec<WatchAct>)
    ensures
        act_views(v@) == seq![a@],
{
    let v = more(none(), a);
    assert(act_views(v@) =~= seq![a@]);
    v
}

/// Two acts.
fn two(a: WatchAct, b: WatchAct) -> (v: Vec<WatchAct>)
    ensures
        act_views(v@) == seq![a@, b@],
{
    let v = more(one(a), b);
    assert(act_views(v@) =~= seq![a@, b@]);
    v
}

/// The links that are up and the interrupt channels that are open on them, and how many
/// input reports came.
#[derive(Debug, Clone)]
pub struct Watch {
    /// Links, by their handles and the addresses behind them.
    pub links: Vec<(u16, [u8; 6])>,
    /// Interrupt channels, by the handle of their link and our channel id.
    pub hid: Vec<(u16, u16)>,
    pub reports: usize,
}

/// A [`Watch`] with its lists as sequences.
#[verifier::ext_equal]
pub struct WatchView {
    pub links: Seq<(u16, Seq<u8>)>,
    pub hid: Seq<(u16, u16)>,
    pub reports: usize,
}

/// The links of `all`, each address as a sequence.
pub open spec fn link_views(all: Seq<(u16, [u8; 6])>) -> Seq<(u16, Seq<u8>)> {
    all.map_values(|l: (u16, [u8; 6])| (l.0, l.1@))
}

impl View for Watch {
    type V = WatchView;

    open spec fn view(&self) -> WatchView {
        WatchView { links: link_views(self.links@), hid: self.hid@, reports: self.reports }
    }
}

/// What something that happened leads to.
#[verifier::ext_equal]
pub struct WatchTurn {
    pub next: WatchView,
    pub acts: Seq<WatchActView>,
}

/// A list without what belongs to a link.
pub open spec fn without_link<T>(all: Seq<(u16, T)>, handle: u16) -> Seq<(u16, T)>
    decreases all.len(),
{
    if all.len() == 0 {
        seq![]
    } else {
        let rest = without_link(all.drop_last(), handle);
        if all.last().0 == handle {
            rest
        } else {
            rest.push(all.last())
        }
    }
}

/// Remove what belongs to a link.
fn drop_link<T: Copy>(all: &Vec<(u16, T)>, handle: u16) -> (v: Vec<(u16, T)>)
    ensures
        v@ == without_link(all@, handle),
{
    let mut v: Vec<(u16, T)> = Vec::new();
    let mut i: usize = 0;
    assert(all@.take(0) =~= seq![]);
    while i < all.len()
        invariant
            i <= all@.len(),
            v@ == without_link(all@.take(i as int), handle),
        decreases all@.len() - i,
    {
        assert(all@.take(i + 1).drop_last() =~= all@.take(i as int));
        let (h, x) = all[i];
        if h != handle {
            v.push((h, x));
        }
        i += 1;
    }
    assert(all@.take(i as int) =~= all@);
    v
}

/// Removing a link from a list and looking at the addresses as sequences can be done in
/// either order.
proof fn without_link_views(all: Seq<(u16, [u8; 6])>, handle: u16)
    ensures
        link_views(without_link(all, handle)) == without_link(link_views(all), handle),
    decreases all.len(),
{
    if all.len() > 0 {
        without_link_views(all.drop_last(), handle);
        assert(link_views(all).drop_last() =~= link_views(all.drop_last()));
        assert(link_views(all).last() == (all.last().0, all.last().1@));
        assert(link_views(without_link(all, handle)) =~= without_link(link_views(all), handle));
    } else {
        assert(link_views(without_link(all, handle)) =~= without_link(link_views(all), handle));
    }
}

impl WatchView {
    /// Nothing changes; these things are to be done.
    pub open spec fn doing(self, acts: Seq<WatchActView>) -> WatchTurn {
        WatchTurn { next: self, acts }
    }

    /// A device calls. Only one that is paired is let in.
    pub open spec fn on_call(
        self,
        known: Map<Seq<char>, keystore::PairingView>,
        address: Seq<u8>,
        class: Seq<u8>,
    ) -> WatchTurn {
        let a = keystore::address_text(address);
        let incoming = WatchActView::Note(
            "⭐ INCOMING from "@ + a + " (class "@ + "["@ + link::listed_bytes(class) + "]"@ + ")"@,
        );
        if known.dom().contains(a) {
            self.doing(seq![incoming, WatchActView::Accept(address)])
        } else {
            self.doing(
                seq![
                    incoming,
                    WatchActView::Note("   ⛔ "@ + a + " is NOT in the key store — ignoring"@),
                ],
            )
        }
    }

    /// A link came up, or failed to.
    pub open spec fn on_link(self, status: u8, handle: u16, address: Seq<u8>) -> WatchTurn {
        let a = keystore::address_text(address);
        if status == 0 {
            WatchTurn {
                next: WatchView { links: self.links.push((handle, address)), ..self },
                acts: seq![
                    WatchActView::Note("   ✅ link up: "@ + a + " handle 0x"@ + text::hex4(handle)),
                    WatchActView::Command {
                        opcode: Opcode(Opcode::AUTHENTICATION_REQUESTED),
                        params: bytes::le16(handle),
                        wait: false,
                    },
                ],
            }
        } else {
            self.doing(
                seq![
                    WatchActView::Note(
                        "   ⛔ link FAILED for "@ + a + ": status 0x"@ + text::hex2(status),
                    ),
                ],
            )
        }
    }

    /// The radio wants the key of a device.
    pub open spec fn on_key_wanted(
        self,
        known: Map<Seq<char>, keystore::PairingView>,
        address: Seq<u8>,
    ) -> WatchTurn {
        let a = keystore::address_text(address);
        if known.dom().contains(a) {
            self.doing(
                seq![
                    WatchActView::Note("   key requested for "@ + a + " — supplying"@),
                    WatchActView::Command {
                        opcode: Opcode(Opcode::LINK_KEY_REQUEST_REPLY),
                        params: address + known[a].key,
                        wait: true,
                    },
                ],
            )
        } else {
            self.doing(
                seq![
                    WatchActView::Note("   ⛔ key requested for "@ + a + " — WE HAVE NONE"@),
                    WatchActView::Command {
                        opcode: Opcode(Opcode::LINK_KEY_REQUEST_NEGATIVE_REPLY),
                        params: address,
                        wait: true,
                    },
                ],
            )
        }
    }

    /// Authentication came to an end.
    pub open spec fn on_authenticated(self, status: u8, handle: u16) -> WatchTurn {
        if status == 0 {
            self.doing(
                seq![
                    WatchActView::Note("   authenticated — encrypting"@),
                    WatchActView::Command {
                        opcode: Opcode(Opcode::SET_CONNECTION_ENCRYPTION),
                        params: bytes::le16(handle) + seq![0x01u8],
                        wait: false,
                    },
                ],
            )
        } else {
            self.doing(
                seq![
                    WatchActView::Note(
                        "   ⛔ AUTH FAILED: status 0x"@ + text::hex2(status)
                            + " (the stored key is probably not this dongle's)"@,
                    ),
                ],
            )
        }
    }

    /// A link went away.
    pub open spec fn on_dropped(self, handle: u16, reason: u8) -> WatchTurn {
        WatchTurn {
            next: WatchView {
                links: without_link(self.links, handle),
                hid: without_link(self.hid, handle),
                reports: self.reports,
            },
            acts: seq![
                WatchActView::Note(
                    "   link 0x"@ + text::hex4(handle) + " DROPPED (reason 0x"@ + text::hex2(reason)
                        + ")"@,
                ),
            ],
        }
    }

    /// What an event leads to. The channels are not opened from here: the controller
    /// called, so it opens them.
    pub open spec fn on_event(
        self,
        known: Map<Seq<char>, keystore::PairingView>,
        e: hci::EventView,
    ) -> WatchTurn {
        match e {
            hci::EventView::ConnectionRequest { address, class_of_device, .. } => self.on_call(
                known,
                address,
                class_of_device,
            ),
            hci::EventView::ConnectionComplete { status, conn_handle, address } => self.on_link(
                status,
                conn_handle,
                address,
            ),
            hci::EventView::LinkKeyRequest { address } => self.on_key_wanted(known, address),
            hci::EventView::IoCapabilityRequest { address } => self.doing(
                seq![
                    WatchActView::Note("   io-capability asked — NoInputNoOutput"@),
                    WatchActView::Command {
                        opcode: Opcode(Opcode::IO_CAPABILITY_REQUEST_REPLY),
                        params: address + seq![0x03u8, 0x00u8, 0x00u8],
                        wait: true,
                    },
                ],
            ),
            hci::EventView::UserConfirmationRequest { address, .. } => self.doing(
                seq![
                    WatchActView::Note("   confirming pairing"@),
                    WatchActView::Command {
                        opcode: Opcode(Opcode::USER_CONFIRMATION_REQUEST_REPLY),
                        params: address,
                        wait: true,
                    },
                ],
            ),
            hci::EventView::LinkKeyNotification { address, key, .. } => self.doing(
                seq![
                    WatchActView::Note(
                        "   ⭐ NEW link key for "@ + keystore::address_text(address) + " — saving"@,
                    ),
                    WatchActView::Save { address, key },
                ],
            ),
            hci::EventView::AuthenticationComplete { status, conn_handle } => {
                self.on_authenticated(status, conn_handle)
            },
            hci::EventView::EncryptionChange { status, enabled, .. } => if status == 0 && enabled
                != 0 {
                self.doing(
                    seq![
                        WatchActView::Note(
                            "   ✅ encrypted — waiting for the controller to open its HID channels"@,
                        ),
                    ],
                )
            } else {
                self.doing(
                    seq![
                        WatchActView::Note("   ⛔ ENCRYPTION FAILED: status 0x"@ + text::hex2(status)),
                    ],
                )
            },
            hci::EventView::DisconnectionComplete { conn_handle, reason } => self.on_dropped(
                conn_handle,
                reason,
            ),
            hci::EventView::Other { code, .. } => if code != 0x13 && code != 0x0e && code != 0x0f {
                self.doing(
                    seq![WatchActView::Note("   (event 0x"@ + text::hex2(code) + ")"@)],
                )
            } else {
                self.doing(seq![])
            },
            _ => self.doing(seq![]),
        }
    }

    /// The channel id that the next channel is granted: of its own for each, and odd for
    /// an interrupt channel.
    pub open spec fn next_cid(self, psm: u16) -> int {
        FIRST_DYNAMIC_CID + self.hid.len() * 2 + (if psm == PSM_HID_INTERRUPT {
            1int
        } else {
            0
        })
    }

    /// Whether a signalling command can be carried out: where it asks for a channel, there
    /// is an id left to grant.
    pub open spec fn has_room(self, s: l2cap::SignalView) -> bool {
        s.code == SIG_CONNECTION_REQUEST ==> (l2cap::connection_request_of(s.data) matches Some(
            r,
        ) ==> self.next_cid(r.0) <= 0xFFFF)
    }

    /// Whether a packet is an input report.
    pub open spec fn is_input(self, p: acl::AclPacketView) -> bool {
        self.hid.contains((p.conn_handle, p.cid))
    }

    /// Whether a packet can be taken into account: an input report can still be counted,
    /// and a signalling command can be carried out.
    pub open spec fn can_take(self, p: acl::AclPacketView) -> bool {
        if self.is_input(p) {
            self.reports < usize::MAX
        } else {
            p.cid == CID_SIGNALLING ==> (l2cap::signal_of(p.payload) matches Some(s)
                ==> self.has_room(s))
        }
    }

    /// The device asks for a channel. It is granted one, and our side is configured at
    /// once.
    pub open spec fn on_channel_wanted(
        self,
        handle: u16,
        identifier: u8,
        psm: u16,
        their_cid: u16,
        head: Seq<WatchActView>,
    ) -> WatchTurn {
        let our_cid = self.next_cid(psm) as u16;
        let acts = head + seq![
            WatchActView::Note(
                "   ⭐ device wants PSM 0x"@ + text::hex4(psm) + " (its cid 0x"@ + text::hex4(
                    their_cid,
                ) + ") — granting cid 0x"@ + text::hex4(our_cid),
            ),
            WatchActView::Send(
                channels::signal_packet(
                    handle,
                    SIG_CONNECTION_RESPONSE,
                    identifier,
                    l2cap::connection_response_data(our_cid, their_cid, 0),
                ),
            ),
            WatchActView::Send(
                channels::signal_packet(
                    handle,
                    SIG_CONFIGURE_REQUEST,
                    channels::next_ident(identifier),
                    l2cap::configure_request_data(their_cid, CHANNEL_MTU),
                ),
            ),
        ];
        if psm == PSM_HID_INTERRUPT {
            WatchTurn {
                next: WatchView { hid: self.hid.push((handle, our_cid)), ..self },
                acts: acts.push(
                    WatchActView::Note("   ✅ interrupt channel granted — expecting input"@),
                ),
            }
        } else {
            self.doing(acts)
        }
    }

    /// What a signalling command leads to.
    pub open spec fn on_signal(self, handle: u16, s: l2cap::SignalView) -> WatchTurn {
        let head = seq![
            WatchActView::Note(
                "   l2cap signal code 0x"@ + text::hex2(s.code) + " on 0x"@ + text::hex4(handle),
            ),
        ];
        if s.code == SIG_CONNECTION_REQUEST {
            match l2cap::connection_request_of(s.data) {
                Some((psm, their_cid)) => self.on_channel_wanted(
                    handle,
                    s.identifier,
                    psm,
                    their_cid,
                    head,
                ),
                None => self.doing(head),
            }
        } else if s.code == SIG_CONFIGURE_REQUEST {
            match l2cap::configure_request_of(s.data) {
                Some((dest, options)) => self.doing(
                    head + seq![
                        WatchActView::Send(
                            channels::signal_packet(
                                handle,
                                SIG_CONFIGURE_RESPONSE,
                                s.identifier,
                                l2cap::configure_response_data(dest, options),
                            ),
                        ),
                        WatchActView::Note("   → answered config request"@),
                    ],
                ),
                None => self.doing(head),
            }
        } else if s.code == SIG_DISCONNECTION_REQUEST {
            self.doing(
                head + seq![
                    WatchActView::Send(
                        channels::signal_packet(
                            handle,
                            SIG_DISCONNECTION_RESPONSE,
                            s.identifier,
                            s.data,
                        ),
                    ),
                    WatchActView::Note("   → answered disconnect request"@),
                ],
            )
        } else {
            self.doing(head)
        }
    }

    /// Whether an open channel has been silent for too long.
    pub open spec fn too_quiet(self, idle_ms: u64) -> bool {
        self.hid.len() > 0 && idle_ms > 5000
    }

    /// What a packet leads to. Of the input reports only the first and every 500th is
    /// mentioned.
    pub open spec fn on_packet(self, p: acl::AclPacketView) -> WatchTurn {
        if self.is_input(p) {
            let n = (self.reports + 1) as usize;
            WatchTurn {
                next: WatchView { reports: n, ..self },
                acts: if n == 1 || n % 500 == 0 {
                    seq![
                        WatchActView::Note(
                            "   📥 input report #"@ + text::decimal(n as nat) + " ("@ + text::decimal(
                                p.payload.len(),
                            ) + " bytes)"@,
                        ),
                        WatchActView::Heard,
                    ]
                } else {
                    seq![WatchActView::Heard]
                },
            }
        } else if p.cid == CID_SIGNALLING {
            match l2cap::signal_of(p.payload) {
                Some(s) => self.on_signal(p.conn_handle, s),
                None => self.doing(seq![]),
            }
        } else {
            self.doing(
                seq![
                    WatchActView::Note(
                        "   acl on cid 0x"@ + text::hex4(p.cid) + " handle 0x"@ + text::hex4(
                            p.conn_handle,
                        ) + " ("@ + text::decimal(p.payload.len()) + " bytes)"@,
                    ),
                ],
            )
        }
    }
}

/// Whether `next` and `acts` are what a turn leads to.
pub open spec fn turn_is(t: WatchTurn, next: Watch, acts: Seq<WatchAct>) -> bool {
    &&& next@ == t.next
    &&& act_views(acts) == t.acts
}

/// A sentence with an address in it.
fn about(words: &str, address: [u8; 6], tail: &str) -> (s: String)
    ensures
        s@ == words@ + keystore::address_text(address@) + tail@,
{
    let mut s = String::new();
    push_text(&mut s, words);
    let a = format_addr(address);
    push_text(&mut s, a.as_str());
    push_text(&mut s, tail);
    assert(s@ =~= words@ + keystore::address_text(address@) + tail@);
    s
}

/// A command whose failure does not matter.
fn command(opcode: u16, params: Vec<u8>, wait: bool) -> (a: WatchAct)
    ensures
        a@ == (WatchActView::Command { opcode: Opcode(opcode), params: params@, wait }),
{
    WatchAct::Command { opcode: Opcode(opcode), params, wait }
}

/// An address and more, as parameters.
fn address_and(address: &[u8; 6], more: &[u8]) -> (v: Vec<u8>)
    ensures
        v@ == address@ + more@,
{
    let mut v = address_params(address);
    push_all(&mut v, more);
    v
}

impl Watch {
    /// Nothing is up yet.
    pub fn new() -> (w: Watch)
        ensures
            w@ == (WatchView { links: seq![], hid: seq![], reports: 0 }),
    {
        let w = Watch { links: Vec::new(), hid: Vec::new(), reports: 0 };
        assert(link_views(w.links@) =~= seq![]);
        w
    }

    /// A device calls.
    fn call(&self, known: &Store, address: [u8; 6], class: [u8; 3]) -> (acts: Vec<WatchAct>)
        ensures
            turn_is(self@.on_call(known@, address@, class@), *self, acts@),
    {
        let mut incoming = about("⭐ INCOMING from ", address, " (class ");
        push_listed_bytes(&mut incoming, class.as_slice());
        push_text(&mut incoming, ")");
        assert(incoming@ =~= "⭐ INCOMING from "@ + keystore::address_text(address@)
            + " (class "@ + "["@ + link::listed_bytes(class@) + "]"@ + ")"@);
        let second = match get(known, address) {
            Some(_) => WatchAct::Accept(address),
            None => WatchAct::Note(about("   ⛔ ", address, " is NOT in the key store — ignoring")),
        };
        two(WatchAct::Note(incoming), second)
    }

    /// A link came up, or failed to.
    fn linked(&mut self, status: u8, handle: u16, address: [u8; 6]) -> (acts: Vec<WatchAct>)
        ensures
            turn_is(old(self)@.on_link(status, handle, address@), *final(self), acts@),
    {
        if status == 0 {
            let ghost before = self.links@;
            self.links.push((handle, address));
            assert(link_views(self.links@) =~= link_views(before).push((handle, address@)));
            let mut s = about("   ✅ link up: ", address, " handle 0x");
            push_hex4(&mut s, handle);
            let mut params: Vec<u8> = Vec::new();
            push16(&mut params, handle);
            assert(params@ =~= bytes::le16(handle));
            two(WatchAct::Note(s), command(Opcode::AUTHENTICATION_REQUESTED, params, false))
        } else {
            let mut s = about("   ⛔ link FAILED for ", address, ": status 0x");
            push_hex2(&mut s, status);
            one(WatchAct::Note(s))
        }
    }

    /// The radio wants the key of a device.
    fn key_wanted(&self, known: &Store, address: [u8; 6]) -> (acts: Vec<WatchAct>)
        ensures
            turn_is(self@.on_key_wanted(known@, address@), *self, acts@),
    {
        match get(known, address) {
            Some(key) => two(
                WatchAct::Note(about("   key requested for ", address, " — supplying")),
                command(
                    Opcode::LINK_KEY_REQUEST_REPLY,
                    address_and(&address, key.as_slice()),
                    true,
                ),
            ),
            None => two(
                WatchAct::Note(about("   ⛔ key requested for ", address, " — WE HAVE NONE")),
                command(
                    Opcode::LINK_KEY_REQUEST_NEGATIVE_REPLY,
                    address_params(&address),
                    true,
                ),
            ),
        }
    }

    /// Authentication came to an end.
    fn authenticated(&self, status: u8, handle: u16) -> (acts: Vec<WatchAct>)
        ensures
            turn_is(self@.on_authenticated(status, handle), *self, acts@),
    {
        if status == 0 {
            let mut params: Vec<u8> = Vec::new();
            push16(&mut params, handle);
            params.push(0x01);
            assert(params@ =~= bytes::le16(handle) + seq![0x01u8]);
            two(
                WatchAct::Note("   authenticated — encrypting".to_owned()),
                command(Opcode::SET_CONNECTION_ENCRYPTION, params, false),
            )
        } else {
            let mut s = with_byte("   ⛔ AUTH FAILED: status 0x", status);
            push_text(&mut s, " (the stored key is probably not this dongle's)");
            one(WatchAct::Note(s))
        }
    }

    /// A link went away.
    fn dropped(&mut self, handle: u16, reason: u8) -> (acts: Vec<WatchAct>)
        ensures
            turn_is(old(self)@.on_dropped(handle, reason), *final(self), acts@),
    {
        proof {
            without_link_views(self.links@, handle);
        }
        self.links = drop_link(&self.links, handle);
        self.hid = drop_link(&self.hid, handle);
        let mut s = with_word("   link 0x", handle);
        push_text(&mut s, " DROPPED (reason 0x");
        push_hex2(&mut s, reason);
        push_text(&mut s, ")");
        one(WatchAct::Note(s))
    }

    /// Take one event into account.
    pub fn event(&mut self, known: &Store, e: &Event) -> (acts: Vec<WatchAct>)
        ensures
            turn_is(old(self)@.on_event(known@, e@), *final(self), acts@),
    {
        match e {
            Event::ConnectionRequest { address, class_of_device, .. } => self.call(
                known,
                *address,
                *class_of_device,
            ),
            Event::ConnectionComplete { status, conn_handle, address } => self.linked(
                *status,
                *conn_handle,
                *address,
            ),
            Event::LinkKeyRequest { address } => self.key_wanted(known, *address),
            Event::IoCapabilityRequest { address } => {
                let answer: [u8; 3] = [0x03, 0x00, 0x00];
                assert(answer@ =~= seq![0x03u8, 0x00u8, 0x00u8]);
                two(
                    WatchAct::Note("   io-capability asked — NoInputNoOutput".to_owned()),
                    command(
                        Opcode::IO_CAPABILITY_REQUEST_REPLY,
                        address_and(address, answer.as_slice()),
                        true,
                    ),
                )
            },
            Event::UserConfirmationRequest { address, .. } => two(
                WatchAct::Note("   confirming pairing".to_owned()),
                command(Opcode::USER_CONFIRMATION_REQUEST_REPLY, address_params(address), true),
            ),
            Event::LinkKeyNotification { address, key, .. } => two(
                WatchAct::Note(about("   ⭐ NEW link key for ", *address, " — saving")),
                WatchAct::Save { address: *address, key: *key },
            ),
            Event::AuthenticationComplete { status, conn_handle } => self.authenticated(
                *status,
                *conn_handle,
            ),
            Event::EncryptionChange { status, enabled, .. } => {
                if *status == 0 && *enabled != 0 {
                    one(
                        WatchAct::Note(
                            "   ✅ encrypted — waiting for the controller to open its HID channels".to_owned(),
                        ),
                    )
                } else {
                    one(WatchAct::Note(with_byte("   ⛔ ENCRYPTION FAILED: status 0x", *status)))
                }
            },
            Event::DisconnectionComplete { conn_handle, reason } => self.dropped(
                *conn_handle,
                *reason,
            ),
            Event::Other { code, .. } => {
                if *code != 0x13 && *code != 0x0e && *code != 0x0f {
                    let mut s = with_byte("   (event 0x", *code);
                    push_text(&mut s, ")");
                    one(WatchAct::Note(s))
                } else {
                    none()
                }
            },
            _ => none(),
        }
    }

    /// Whether a packet is an input report.
    fn input(&self, p: &AclPacket) -> (r: bool)
        ensures
            r == self@.is_input(p@),
    {
        let mut i: usize = 0;
        while i < self.hid.len()
            invariant
                i <= self.hid@.len(),
                forall|j: int| 0 <= j < i ==> self.hid@[j] != (p.conn_handle, p.cid),
            decreases self.hid@.len() - i,
        {
            let (h, c) = self.hid[i];
            if h == p.conn_handle && c == p.cid {
                assert(self.hid@[i as int] == (p.conn_handle, p.cid));
                return true;
            }
            i += 1;
        }
        false
    }

    /// The device asks for a channel.
    fn channel_wanted(
        &mut self,
        handle: u16,
        identifier: u8,
        psm: u16,
        their_cid: u16,
        head: WatchAct,
    ) -> (acts: Vec<WatchAct>)
        requires
            old(self)@.next_cid(psm) <= 0xFFFF,
        ensures
            turn_is(
                old(self)@.on_channel_wanted(handle, identifier, psm, their_cid, seq![head@]),
                *final(self),
                acts@,
            ),
    {
        let our_cid: u16 = FIRST_DYNAMIC_CID + self.hid.len() as u16 * 2 + if psm
            == PSM_HID_INTERRUPT {
            1
        } else {
            0
        };
        let mut s = with_word("   ⭐ device wants PSM 0x", psm);
        push_text(&mut s, " (its cid 0x");
        push_hex4(&mut s, their_cid);
        push_text(&mut s, ") — granting cid 0x");
        push_hex4(&mut s, our_cid);
        let ghost wanted = s@;
        let response = connection_response(our_cid, their_cid, 0);
        let grant = frame_signal(
            handle,
            SIG_CONNECTION_RESPONSE,
            identifier,
            response.as_slice(),
        );
        let ghost g = grant@;
        let request = configure_request(their_cid, CHANNEL_MTU);
        let configure = frame_signal(
            handle,
            SIG_CONFIGURE_REQUEST,
            bump(identifier),
            request.as_slice(),
        );
        let ghost c = configure@;
        let acts = two(head, WatchAct::Note(s));
        let acts = more(acts, WatchAct::Send(grant));
        let acts = more(acts, WatchAct::Send(configure));
        assert(act_views(acts@) =~= seq![head@] + seq![
            WatchActView::Note(wanted),
            WatchActView::Send(g),
            WatchActView::Send(c),
        ]);
        if psm == PSM_HID_INTERRUPT {
            self.hid.push((handle, our_cid));
            more(
                acts,
                WatchAct::Note("   ✅ interrupt channel granted — expecting input".to_owned()),
            )
        } else {
            acts
        }
    }

    /// Take one signalling command into account.
    fn signal(&mut self, handle: u16, s: Signal) -> (acts: Vec<WatchAct>)
        requires
            old(self)@.has_room(s@),
        ensures
            turn_is(old(self)@.on_signal(handle, s@), *final(self), acts@),
    {
        let mut words = with_byte("   l2cap signal code 0x", s.code);
        push_text(&mut words, " on 0x");
        push_hex4(&mut words, handle);
        let head = WatchAct::Note(words);
        if s.code == SIG_CONNECTION_REQUEST {
            match parse_connection_request(s.data.as_slice()) {
                Some((psm, their_cid)) => self.channel_wanted(
                    handle,
                    s.identifier,
                    psm,
                    their_cid,
                    head,
                ),
                None => one(head),
            }
        } else if s.code == SIG_CONFIGURE_REQUEST {
            match parse_configure_request(s.data.as_slice()) {
                Some((dest, options)) => {
                    let response = configure_response(dest, options.as_slice());
                    let reply = frame_signal(
                        handle,
                        SIG_CONFIGURE_RESPONSE,
                        s.identifier,
                        response.as_slice(),
                    );
                    let ghost r = reply@;
                    let acts = two(head, WatchAct::Send(reply));
                    let acts = more(
                        acts,
                        WatchAct::Note("   → answered config request".to_owned()),
                    );
                    assert(act_views(acts@) =~= seq![head@] + seq![
                        WatchActView::Send(r),
                        WatchActView::Note("   → answered config request"@),
                    ]);
                    acts
                },
                None => one(head),
            }
        } else if s.code == SIG_DISCONNECTION_REQUEST {
            let reply = frame_signal(
                handle,
                SIG_DISCONNECTION_RESPONSE,
                s.identifier,
                s.data.as_slice(),
            );
            let ghost r = reply@;
            let acts = two(head, WatchAct::Send(reply));
            let acts = more(acts, WatchAct::Note("   → answered disconnect request".to_owned()));
            assert(act_views(acts@) =~= seq![head@] + seq![
                WatchActView::Send(r),
                WatchActView::Note("   → answered disconnect request"@),
            ]);
            acts
        } else {
            one(head)
        }
    }

    /// Whether a packet can be taken into account.
    pub fn can_take(&self, p: &AclPacket) -> (r: bool)
        ensures
            r == self@.can_take(p@),
    {
        if self.input(p) {
            return self.reports < usize::MAX;
        }
        if p.cid != CID_SIGNALLING {
            return true;
        }
        match parse_signal(p.payload.as_slice()) {
            Some(s) => if s.code == SIG_CONNECTION_REQUEST {
                match parse_connection_request(s.data.as_slice()) {
                    Some((psm, _)) => {
                        let used: usize = self.hid.len();
                        let odd: usize = if psm == PSM_HID_INTERRUPT {
                            1
                        } else {
                            0
                        };
                        used <= 0xFFFF && FIRST_DYNAMIC_CID as usize + used * 2 + odd <= 0xFFFF
                    },
                    None => true,
                }
            } else {
                true
            },
            None => true,
        }
    }

    /// Take one packet into account.
    pub fn packet(&mut self, p: &AclPacket) -> (acts: Vec<WatchAct>)
        requires
            old(self)@.can_take(p@),
        ensures
            turn_is(old(self)@.on_packet(p@), *final(self), acts@),
    {
        if self.input(p) {
            self.reports = self.reports + 1;
            let n: usize = self.reports;
            if n == 1 || n % 500 == 0 {
                let mut s = String::new();
                push_text(&mut s, "   📥 input report #");
                push_decimal(&mut s, n);
                push_text(&mut s, " (");
                push_decimal(&mut s, p.payload.len());
                push_text(&mut s, " bytes)");
                return two(WatchAct::Note(s), WatchAct::Heard);
            }
            return one(WatchAct::Heard);
        }
        if p.cid == CID_SIGNALLING {
            return match parse_signal(p.payload.as_slice()) {
                Some(s) => self.signal(p.conn_handle, s),
                None => none(),
            };
        }
        let mut s = with_word("   acl on cid 0x", p.cid);
        push_text(&mut s, " handle 0x");
        push_hex4(&mut s, p.conn_handle);
        push_text(&mut s, " (");
        push_decimal(&mut s, p.payload.len());
        push_text(&mut s, " bytes)");
        one(WatchAct::Note(s))
    }

    /// Whether an open channel has been silent for longer than five seconds, which is
    /// worth a warning.
    pub fn silent(&self, idle_ms: u64) -> (r: bool)
        ensures
            r == self@.too_quiet(idle_ms),
    {
        self.hid.len() > 0 && idle_ms > 5000
    }
}

/// What is said once a call was accepted, or could not be.
pub fn accepted_note(r: &Result<()>) -> (s: String)
    ensures
        s@ == match *r {
            Ok(()) => "   accepting…"@,
            Err(e) => "   ⛔ accept failed: "@ + error::error_text(e@),
        },
{
    match r {
        Ok(()) => "   accepting…".to_owned(),
        Err(e) => {
            let mut s = String::new();
            push_text(&mut s, "   ⛔ accept failed: ");
            let t = e.to_text();
            push_text(&mut s, t.as_str());
            assert(s@ =~= "   ⛔ accept failed: "@ + error::error_text(e@));
            s
        },
    }
}

/// Only a device that is paired is let in, and only on its own call.
pub proof fn only_the_paired_are_let_in(
    w: WatchView,
    known: Map<Seq<char>, keystore::PairingView>,
    e: hci::EventView,
    i: int,
)
    requires
        0 <= i < w.on_event(known, e).acts.len(),
        w.on_event(known, e).acts[i] is Accept,
    ensures
        e is ConnectionRequest,
        w.on_event(known, e).acts[i] == WatchActView::Accept(e->ConnectionRequest_address),
        known.dom().contains(keystore::address_text(e->ConnectionRequest_address)),
{
}

/// Every request for a key is answered, with the key of that very device where there is
/// one and with a refusal where there is none.
pub proof fn a_key_request_is_answered(
    w: WatchView,
    known: Map<Seq<char>, keystore::PairingView>,
    address: Seq<u8>,
)
    ensures
        ({
            let t = w.on_event(known, hci::EventView::LinkKeyRequest { address });
            let a = keystore::address_text(address);
            &&& t.next == w
            &&& t.acts.len() == 2
            &&& t.acts[1] == (WatchActView::Command {
                opcode: Opcode(
                    if known.dom().contains(a) {
                        Opcode::LINK_KEY_REQUEST_REPLY
                    } else {
                        Opcode::LINK_KEY_REQUEST_NEGATIVE_REPLY
                    },
                ),
                params: if known.dom().contains(a) {
                    address + known[a].key
                } else {
                    address
                },
                wait: true,
            })
        }),
{
}

/// Nothing of a link is left once it went away.
pub proof fn nothing_is_left_of_a_dropped_link(w: WatchView, handle: u16, reason: u8)
    ensures
        ({
            let n = w.on_dropped(handle, reason).next;
            &&& forall|i: int| 0 <= i < n.links.len() ==> (#[trigger] n.links[i]).0 != handle
            &&& forall|i: int| 0 <= i < n.hid.len() ==> (#[trigger] n.hid[i]).0 != handle
        }),
{
    without_link_clears(w.links, handle);
    without_link_clears(w.hid, handle);
}

/// A list without a link holds nothing of it.
proof fn without_link_clears<T>(all: Seq<(u16, T)>, handle: u16)
    ensures
        forall|i: int|
            0 <= i < without_link(all, handle).len() ==> (#[trigger] without_link(
                all,
                handle,
            )[i]).0 != handle,
    decreases all.len(),
{
    if all.len() > 0 {
        without_link_clears(all.drop_last(), handle);
        let rest = without_link(all.drop_last(), handle);
        let w = without_link(all, handle);
        assert forall|i: int| 0 <= i < w.len() implies (#[trigger] w[i]).0 != handle by {
            if i < rest.len() {
                assert(w[i] == rest[i]);
            }
        }
    }
}

/// A channel that was granted for input is listened to: the next packet on it is taken
/// for a report.
pub proof fn a_granted_channel_is_heard(
    w: WatchView,
    handle: u16,
    identifier: u8,
    their_cid: u16,
    head: Seq<WatchActView>,
    payload: Seq<u8>,
)
    ensures
        ({
            let n = w.on_channel_wanted(
                handle,
                identifier,
                PSM_HID_INTERRUPT,
                their_cid,
                head,
            ).next;
            let cid = w.next_cid(PSM_HID_INTERRUPT) as u16;
            n.is_input(acl::AclPacketView { conn_handle: handle, cid, payload })
        }),
{
    let n = w.on_channel_wanted(handle, identifier, PSM_HID_INTERRUPT, their_cid, head).next;
    let cid = w.next_cid(PSM_HID_INTERRUPT) as u16;
    assert(n.hid.last() == (handle, cid));
    assert(n.hid[n.hid.len() - 1] == (handle, cid));
}

/// The commands among some acts, in order: what is carried out, rather than said.
pub open spec fn commands_among(acts: Seq<WatchActView>) -> Seq<(u16, Seq<u8>)>
    decreases acts.len(),
{
    if acts.len() == 0 {
        seq![]
    } else {
        let rest = commands_among(acts.drop_last());
        match acts.last() {
            WatchActView::Command { opcode, params, .. } => rest.push((opcode.0, params)),
            _ => rest,
        }
    }
}

/// The packets among some acts, in order.
pub open spec fn sent_among(acts: Seq<WatchActView>) -> Seq<Seq<u8>>
    decreases acts.len(),
{
    if acts.len() == 0 {
        seq![]
    } else {
        let rest = sent_among(acts.drop_last());
        match acts.last() {
            WatchActView::Send(p) => rest.push(p),
            _ => rest,
        }
    }
}

/// What is carried out among one act and more.
proof fn among_step(acts: Seq<WatchActView>, a: WatchActView)
    ensures
        commands_among(acts.push(a)) == (match a {
            WatchActView::Command { opcode, params, .. } => commands_among(acts).push(
                (opcode.0, params),
            ),
            _ => commands_among(acts),
        }),
        sent_among(acts.push(a)) == (match a {
            WatchActView::Send(p) => sent_among(acts).push(p),
            _ => sent_among(acts),
        }),
{
    assert(acts.push(a).drop_last() =~= acts);
}

/// What is carried out among two acts.
proof fn among_two(a: WatchActView, b: WatchActView)
    ensures
        commands_among(seq![a, b]) == commands_among(seq![a]) + commands_among(seq![b]),
        commands_among(seq![a]) == (match a {
            WatchActView::Command { opcode, params, .. } => seq![(opcode.0, params)],
            _ => seq![],
        }),
        commands_among(seq![b]) == (match b {
            WatchActView::Command { opcode, params, .. } => seq![(opcode.0, params)],
            _ => seq![],
        }),
        commands_among(seq![]) == Seq::<(u16, Seq<u8>)>::empty(),
{
    let e = Seq::<WatchActView>::empty();
    assert(e.push(a) =~= seq![a]);
    assert(e.push(b) =~= seq![b]);
    assert(seq![a].push(b) =~= seq![a, b]);
    among_step(e, a);
    among_step(e, b);
    among_step(seq![a], b);
    assert(commands_among(seq![a, b]) =~= commands_among(seq![a]) + commands_among(seq![b]));
    assert(commands_among(seq![a]) =~= (match a {
        WatchActView::Command { opcode, params, .. } => seq![(opcode.0, params)],
        _ => seq![],
    }));
    assert(commands_among(seq![b]) =~= (match b {
        WatchActView::Command { opcode, params, .. } => seq![(opcode.0, params)],
        _ => seq![],
    }));
}

/// A link that is authenticated is encrypted: whatever is going on, a successful
/// authentication leads to one command, which switches encryption on for that very link, and
/// a failed one to none.
pub proof fn an_authenticated_link_is_encrypted(
    w: WatchView,
    known: Map<Seq<char>, keystore::PairingView>,
    status: u8,
    handle: u16,
)
    ensures
        ({
            let t = w.on_event(
                known,
                hci::EventView::AuthenticationComplete { status, conn_handle: handle },
            );
            &&& t.next == w
            &&& commands_among(t.acts) == if status == 0 {
                seq![(0x0413u16, seq![(handle % 256) as u8, (handle / 256) as u8, 0x01u8])]
            } else {
                Seq::<(u16, Seq<u8>)>::empty()
            }
        }),
{
    let t = w.on_event(
        known,
        hci::EventView::AuthenticationComplete { status, conn_handle: handle },
    );
    if status == 0 {
        among_two(t.acts[0], t.acts[1]);
        assert(t.acts =~= seq![t.acts[0], t.acts[1]]);
        assert(bytes::le16(handle) + seq![0x01u8] =~= seq![
            (handle % 256) as u8,
            (handle / 256) as u8,
            0x01u8,
        ]);
    } else {
        among_two(t.acts[0], t.acts[0]);
        assert(t.acts =~= seq![t.acts[0]]);
    }
}

/// A link that comes up is remembered with its device and authenticated; one that fails to
/// changes nothing.
pub proof fn a_link_that_comes_up_is_authenticated(
    w: WatchView,
    known: Map<Seq<char>, keystore::PairingView>,
    status: u8,
    handle: u16,
    address: Seq<u8>,
)
    ensures
        ({
            let t = w.on_event(
                known,
                hci::EventView::ConnectionComplete { status, conn_handle: handle, address },
            );
            if status == 0 {
                &&& t.next.links == w.links.push((handle, address))
                &&& t.next.hid == w.hid
                &&& t.next.reports == w.reports
                &&& commands_among(t.acts) == seq![
                    (0x0411u16, seq![(handle % 256) as u8, (handle / 256) as u8]),
                ]
            } else {
                &&& t.next == w
                &&& commands_among(t.acts) == Seq::<(u16, Seq<u8>)>::empty()
            }
        }),
{
    let t = w.on_event(
        known,
        hci::EventView::ConnectionComplete { status, conn_handle: handle, address },
    );
    if status == 0 {
        among_two(t.acts[0], t.acts[1]);
        assert(t.acts =~= seq![t.acts[0], t.acts[1]]);
    } else {
        among_two(t.acts[0], t.acts[0]);
        assert(t.acts =~= seq![t.acts[0]]);
    }
}

/// Every question of the radio gets the answer that it waits for: the key of that very
/// device where there is one, and otherwise the word that there is none; that this host can
/// neither show nor ask anything; and a confirmation. Nothing else is done, and nothing
/// changes.
pub proof fn every_question_is_answered(
    w: WatchView,
    known: Map<Seq<char>, keystore::PairingView>,
    address: Seq<u8>,
    numeric: u32,
)
    ensures
        ({
            let key = w.on_event(known, hci::EventView::LinkKeyRequest { address });
            let capability = w.on_event(known, hci::EventView::IoCapabilityRequest { address });
            let confirmation = w.on_event(
                known,
                hci::EventView::UserConfirmationRequest { address, numeric },
            );
            let a = keystore::address_text(address);
            &&& key.next == w && capability.next == w && confirmation.next == w
            &&& commands_among(key.acts) == seq![
                if known.dom().contains(a) {
                    (0x040Bu16, address + known[a].key)
                } else {
                    (0x040Cu16, address)
                },
            ]
            &&& commands_among(capability.acts) == seq![
                (0x042Bu16, address + seq![0x03u8, 0x00, 0x00]),
            ]
            &&& commands_among(confirmation.acts) == seq![(0x042Cu16, address)]
        }),
{
    let key = w.on_event(known, hci::EventView::LinkKeyRequest { address });
    let capability = w.on_event(known, hci::EventView::IoCapabilityRequest { address });
    let confirmation = w.on_event(
        known,
        hci::EventView::UserConfirmationRequest { address, numeric },
    );
    among_two(key.acts[0], key.acts[1]);
    among_two(capability.acts[0], capability.acts[1]);
    among_two(confirmation.acts[0], confirmation.acts[1]);
    assert(key.acts =~= seq![key.acts[0], key.acts[1]]);
    assert(capability.acts =~= seq![capability.acts[0], capability.acts[1]]);
    assert(confirmation.acts =~= seq![confirmation.acts[0], confirmation.acts[1]]);
}

/// A paired device that calls is let in; one that is not is not, and no command is sent for
/// either.
pub proof fn a_paired_caller_is_let_in(
    w: WatchView,
    known: Map<Seq<char>, keystore::PairingView>,
    address: Seq<u8>,
    class: Seq<u8>,
    link_type: u8,
)
    ensures
        ({
            let t = w.on_event(
                known,
                hci::EventView::ConnectionRequest { address, class_of_device: class, link_type },
            );
            &&& t.next == w
            &&& t.acts.contains(WatchActView::Accept(address)) <==> known.dom().contains(
                keystore::address_text(address),
            )
            &&& commands_among(t.acts) == Seq::<(u16, Seq<u8>)>::empty()
        }),
{
    let t = w.on_event(
        known,
        hci::EventView::ConnectionRequest { address, class_of_device: class, link_type },
    );
    among_two(t.acts[0], t.acts[1]);
    assert(t.acts =~= seq![t.acts[0], t.acts[1]]);
    if known.dom().contains(keystore::address_text(address)) {
        assert(t.acts[1] == WatchActView::Accept(address));
    }
}

/// A key that a device agreed on is stored under its own address, whole, once.
pub proof fn a_new_key_is_stored(
    w: WatchView,
    known: Map<Seq<char>, keystore::PairingView>,
    address: Seq<u8>,
    key: Seq<u8>,
    key_type: u8,
    i: int,
)
    ensures
        ({
            let t = w.on_event(
                known,
                hci::EventView::LinkKeyNotification { address, key, key_type },
            );
            &&& t.next == w
            &&& t.acts.contains(WatchActView::Save { address, key })
            &&& 0 <= i < t.acts.len() && t.acts[i] is Save ==> t.acts[i]
                == (WatchActView::Save { address, key })
        }),
{
    let t = w.on_event(known, hci::EventView::LinkKeyNotification { address, key, key_type });
    assert(t.acts[1] == (WatchActView::Save { address, key }));
}

/// A link that goes away takes its own channels with it and leaves every other link and
/// channel, in order.
pub proof fn other_links_stay(w: WatchView, known: Map<Seq<char>, keystore::PairingView>, handle: u16, reason: u8)
    ensures
        ({
            let n = w.on_event(
                known,
                hci::EventView::DisconnectionComplete { conn_handle: handle, reason },
            ).next;
            &&& n.links == w.links.filter(|l: (u16, Seq<u8>)| l.0 != handle)
            &&& n.hid == w.hid.filter(|c: (u16, u16)| c.0 != handle)
            &&& n.reports == w.reports
        }),
{
    without_link_filters(w.links, handle);
    without_link_filters(w.hid, handle);
}

/// A list without a link is what is left of it without that link, in order.
proof fn without_link_filters<T>(all: Seq<(u16, T)>, handle: u16)
    ensures
        without_link(all, handle) == all.filter(|x: (u16, T)| x.0 != handle),
    decreases all.len(),
{
    reveal(Seq::filter);
    if all.len() > 0 {
        without_link_filters(all.drop_last(), handle);
    }
}

/// What is granted to a device that asks for a channel: an id that no open interrupt channel
/// has in use, told together with the device's own, as a success; and a configuration of that
/// channel that asks for 672 bytes. An interrupt channel is listened to from then on, and no
/// other is.
pub proof fn a_channel_that_is_wanted_is_granted(
    w: WatchView,
    handle: u16,
    identifier: u8,
    psm: u16,
    their_cid: u16,
)
    requires
        w.next_cid(psm) <= 0xFFFF,
    ensures
        ({
            let t = w.on_signal(
                handle,
                l2cap::SignalView {
                    code: 0x02,
                    identifier,
                    data: l2cap::connection_request_data(psm, their_cid),
                },
            );
            let ours = w.next_cid(psm) as u16;
            &&& sent_among(t.acts) == seq![
                channels::signal_packet(
                    handle,
                    0x03,
                    identifier,
                    l2cap::connection_response_data(ours, their_cid, 0),
                ),
                channels::signal_packet(
                    handle,
                    0x04,
                    channels::next_ident(identifier),
                    l2cap::configure_request_data(their_cid, 672),
                ),
            ]
            &&& t.next.hid == if psm == 0x0013 {
                w.hid.push((handle, ours))
            } else {
                w.hid
            }
            &&& t.next.links == w.links && t.next.reports == w.reports
        }),
{
    l2cap::connection_request_round_trips(psm, their_cid);
    let t = w.on_signal(
        handle,
        l2cap::SignalView {
            code: 0x02,
            identifier,
            data: l2cap::connection_request_data(psm, their_cid),
        },
    );
    let e = Seq::<WatchActView>::empty();
    let a = t.acts;
    among_step(e, a[0]);
    among_step(e.push(a[0]), a[1]);
    among_step(e.push(a[0]).push(a[1]), a[2]);
    let four = e.push(a[0]).push(a[1]).push(a[2]).push(a[3]);
    among_step(e.push(a[0]).push(a[1]).push(a[2]), a[3]);
    if psm == 0x0013 {
        among_step(four, a[4]);
        assert(a =~= four.push(a[4]));
    } else {
        assert(a =~= four);
    }
    assert(sent_among(a) =~= seq![
        channels::signal_packet(
            handle,
            0x03,
            identifier,
            l2cap::connection_response_data(w.next_cid(psm) as u16, their_cid, 0),
        ),
        channels::signal_packet(
            handle,
            0x04,
            channels::next_ident(identifier),
            l2cap::configure_request_data(their_cid, 672),
        ),
    ]);
}

/// Ids are given out from the first that is free to be given: an interrupt channel gets an
/// odd one, any other an even one, and every interrupt channel that is open moves both on.
pub proof fn ids_are_given_out_in_pairs(w: WatchView, handle: u16, cid: u16, psm: u16)
    requires
        psm != 0x0013,
    ensures
        w.hid.len() == 0 ==> w.next_cid(psm) == 0x40,
        w.next_cid(0x0013) == w.next_cid(psm) + 1,
        w.next_cid(psm) % 2 == 0,
        (WatchView { hid: w.hid.push((handle, cid)), ..w }).next_cid(psm) == w.next_cid(psm) + 2,
{
}

/// A configuration is answered on its link, under its own identifier, for the channel that it
/// names and with its own options; a closing is confirmed with what it said. Neither changes
/// anything.
pub proof fn configurations_and_closings_are_answered(
    w: WatchView,
    handle: u16,
    identifier: u8,
    dest: u16,
    flags: Seq<u8>,
    options: Seq<u8>,
    closing: Seq<u8>,
)
    requires
        flags.len() == 2,
    ensures
        ({
            let t = w.on_signal(
                handle,
                l2cap::SignalView {
                    code: 0x04,
                    identifier,
                    data: bytes::le16(dest) + flags + options,
                },
            );
            let c = w.on_signal(
                handle,
                l2cap::SignalView { code: 0x06, identifier, data: closing },
            );
            &&& t.next == w && c.next == w
            &&& sent_among(t.acts) == seq![
                channels::signal_packet(
                    handle,
                    0x05,
                    identifier,
                    l2cap::configure_response_data(dest, options),
                ),
            ]
            &&& sent_among(c.acts) == seq![
                channels::signal_packet(handle, 0x07, identifier, closing),
            ]
        }),
{
    let data = bytes::le16(dest) + flags + options;
    bytes::le16_round_trips(dest);
    assert(data[0] == bytes::le16(dest)[0] && data[1] == bytes::le16(dest)[1]);
    assert(data.skip(4) =~= options);
    let t = w.on_signal(handle, l2cap::SignalView { code: 0x04, identifier, data });
    let c = w.on_signal(handle, l2cap::SignalView { code: 0x06, identifier, data: closing });
    let e = Seq::<WatchActView>::empty();
    let a = t.acts;
    among_step(e, a[0]);
    among_step(e.push(a[0]), a[1]);
    among_step(e.push(a[0]).push(a[1]), a[2]);
    assert(a =~= e.push(a[0]).push(a[1]).push(a[2]));
    assert(sent_among(a) =~= seq![
        channels::signal_packet(
            handle,
            0x05,
            identifier,
            l2cap::configure_response_data(dest, options),
        ),
    ]);
    let b = c.acts;
    among_step(e, b[0]);
    among_step(e.push(b[0]), b[1]);
    among_step(e.push(b[0]).push(b[1]), b[2]);
    assert(b =~= e.push(b[0]).push(b[1]).push(b[2]));
    assert(sent_among(b) =~= seq![channels::signal_packet(handle, 0x07, identifier, closing)]);
}

/// Every packet on an open interrupt channel counts as one more report and starts the time
/// without one over; no other packet does, and none of either changes links or channels but
/// by what it signals.
pub proof fn every_report_is_heard(w: WatchView, p: acl::AclPacketView)
    requires
        w.reports < usize::MAX,
    ensures
        ({
            let t = w.on_packet(p);
            let input = w.hid.contains((p.conn_handle, p.cid));
            &&& t.acts.contains(WatchActView::Heard) <==> input
            &&& t.next.reports == w.reports + (if input {
                1int
            } else {
                0
            })
            &&& input || p.cid != 1 ==> t.next.links == w.links && t.next.hid == w.hid
                && sent_among(t.acts) == Seq::<Seq<u8>>::empty()
        }),
{
    let t = w.on_packet(p);
    let e = Seq::<WatchActView>::empty();
    if w.is_input(p) {
        if t.acts.len() == 2 {
            assert(t.acts[1] == WatchActView::Heard);
            among_step(e, t.acts[0]);
            among_step(e.push(t.acts[0]), t.acts[1]);
            assert(t.acts =~= e.push(t.acts[0]).push(t.acts[1]));
        } else {
            assert(t.acts[0] == WatchActView::Heard);
            among_step(e, t.acts[0]);
            assert(t.acts =~= e.push(t.acts[0]));
        }
    } else if p.cid != 1 {
        among_step(e, t.acts[0]);
        assert(t.acts =~= e.push(t.acts[0]));
    }
}

/// Of the reports, only the first and every 500th is mentioned.
pub proof fn few_reports_are_mentioned(w: WatchView, p: acl::AclPacketView, i: int)
    requires
        w.reports < usize::MAX,
        w.hid.contains((p.conn_handle, p.cid)),
        0 <= i < w.on_packet(p).acts.len(),
        w.on_packet(p).acts[i] is Note,
    ensures
        w.reports == 0 || (w.reports + 1) % 500 == 0,
{
}

/// A warning is due exactly where a channel is open and more than five seconds passed without
/// a report.
pub proof fn silence_is_noticed_after_five_seconds(w: WatchView, ms: u64)
    ensures
        w.hid.len() == 0 ==> !w.too_quiet(ms),
        w.hid.len() > 0 ==> (w.too_quiet(ms) <==> ms / 1000 >= 5 && ms != 5000),
{
}

} // verus!
