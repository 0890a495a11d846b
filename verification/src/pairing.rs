//! Paging a classic device and pairing with it.
//!
//! "Connect" and "pair" are one operation here: paging a modern controller opens a
//! link and the remote immediately demands authentication; a host that pages and then
//! says nothing is disconnected within a couple of seconds.
use vstd::prelude::*;
use crate::bytes;
use crate::bytes::{push16, push_all};
use crate::channels;
use crate::channels::push_bool;
use crate::commands;
use crate::commands::{
    address_params, make_step, same_address, OnFailure, OnFailureView, Step, StepView,
};
use crate::error;
use crate::error::Error;
use crate::hci;
use crate::hci::{Event, Opcode};
use crate::text;
use crate::text::{push_decimal, push_hex4, push_text, with_byte};

verus! {

/// The page scan repetition mode that means "do not page: the link is already coming
/// in".
pub const NO_PAGE: u8 = 0xFF;

/// The standard set of packet types. Offering too few makes a link that negotiates but
/// then cannot carry a full-size report.
pub const PACKET_TYPES: u16 = 0xCC18;

/// Reason for a disconnection: the user ended it.
pub const REASON_USER_ENDED: u8 = 0x13;

/// A live BR/EDR link.
#[derive(Debug, Clone, Copy, PartialEq, Eq)]
pub struct ClassicLink {
    pub conn_handle: u16,
    pub address: [u8; 6],
    /// The bond. Persist it and the controller reconnects without pairing.
    pub link_key: Option<[u8; 16]>,
    pub encrypted: bool,
    /// True when the remote opened this link, whoever tried first: that decides who
    /// opens the channels.
    pub incoming: bool,
}

/// A [`ClassicLink`] with its arrays as sequences.
#[verifier::ext_equal]
pub struct ClassicLinkView {
    pub conn_handle: u16,
    pub address: Seq<u8>,
    pub link_key: Option<Seq<u8>>,
    pub encrypted: bool,
    pub incoming: bool,
}

/// A key by its bytes.
pub open spec fn key_view(key: Option<[u8; 16]>) -> Option<Seq<u8>> {
    match key {
        Some(k) => Some(k@),
        None => None,
    }
}

impl View for ClassicLink {
    type V = ClassicLinkView;

    open spec fn view(&self) -> ClassicLinkView {
        ClassicLinkView {
            conn_handle: self.conn_handle,
            address: self.address@,
            link_key: key_view(self.link_key),
            encrypted: self.encrypted,
            incoming: self.incoming,
        }
    }
}

/// Whether a pairing goes on, and how it ended where it does not.
#[derive(Debug, Clone, PartialEq, Eq)]
pub enum PairVerdict {
    Waiting,
    Paired(ClassicLink),
    Failed(Error),
}

/// A [`PairVerdict`] by the views of its parts.
#[verifier::ext_equal]
pub enum PairVerdictView {
    Waiting,
    Paired(ClassicLinkView),
    Failed(error::ErrorView),
}

impl View for PairVerdict {
    type V = PairVerdictView;

    open spec fn view(&self) -> PairVerdictView {
        match self {
            PairVerdict::Waiting => PairVerdictView::Waiting,
            PairVerdict::Paired(l) => PairVerdictView::Paired(l@),
            PairVerdict::Failed(e) => PairVerdictView::Failed(e@),
        }
    }
}

/// A device being paged and paired with.
#[derive(Debug, Clone, Copy, PartialEq, Eq)]
pub struct PagePair {
    /// Whether the device is being paged, rather than calling by itself.
    pub paging: bool,
    pub link: ClassicLink,
    pub connected: bool,
    pub paired: bool,
}

/// A [`PagePair`] with its link by its view.
#[verifier::ext_equal]
pub struct PagePairView {
    pub paging: bool,
    pub link: ClassicLinkView,
    pub connected: bool,
    pub paired: bool,
}

impl View for PagePair {
    type V = PagePairView;

    open spec fn view(&self) -> PagePairView {
        PagePairView {
            paging: self.paging,
            link: self.link@,
            connected: self.connected,
            paired: self.paired,
        }
    }
}

/// What a turn of the pairing leads to.
#[verifier::ext_equal]
pub struct PairTurn {
    pub next: PagePairView,
    pub steps: Seq<StepView>,
    pub verdict: PairVerdictView,
}

/// The parameters that page a device: address, packet types, repetition mode, a
/// reserved byte, clock offset, and that a role switch is allowed.
pub open spec fn page_params(addr: Seq<u8>, psrm: u8, clock_offset: u16) -> Seq<u8> {
    addr + bytes::le16(PACKET_TYPES) + seq![psrm, 0x00u8] + bytes::le16(clock_offset) + seq![0x01u8]
}

/// How a pairing begins. Secure Simple Pairing must be on before paging; a controller
/// that rejects it will simply fail later, more informatively. Paging is skipped where
/// the remote is already calling: two radios that page each other talk past each other.
pub open spec fn opening_steps(
    addr: Seq<u8>,
    psrm: u8,
    clock_offset: u16,
    page_slots: u16,
) -> Seq<StepView> {
    seq![
        commands::awaited(
            Opcode::WRITE_SIMPLE_PAIRING_MODE,
            seq![0x01u8],
            OnFailureView::Report("simple pairing mode refused: "@),
        ),
    ] + (if psrm == NO_PAGE {
        seq![]
    } else {
        seq![
            commands::awaited(
                Opcode::WRITE_PAGE_TIMEOUT,
                bytes::le16(page_slots),
                OnFailureView::Ignore,
            ),
            commands::sent(
                Opcode::CREATE_CONNECTION,
                page_params(addr, psrm, clock_offset),
                OnFailureView::Abort,
            ),
        ]
    })
}

impl PagePairView {
    /// The start of a pairing.
    pub open spec fn initial(addr: Seq<u8>, psrm: u8, known_key: Option<Seq<u8>>) -> PagePairView {
        PagePairView {
            paging: psrm != NO_PAGE,
            link: ClassicLinkView {
                conn_handle: 0,
                address: addr,
                link_key: known_key,
                encrypted: false,
                incoming: psrm == NO_PAGE,
            },
            connected: false,
            paired: known_key is Some,
        }
    }

    /// The pairing goes on.
    pub open spec fn going_on(self, steps: Seq<StepView>) -> PairTurn {
        PairTurn { next: self, steps, verdict: PairVerdictView::Waiting }
    }

    /// The pairing fails.
    pub open spec fn failing(self, message: Seq<char>) -> PairTurn {
        PairTurn {
            next: self,
            steps: seq![],
            verdict: PairVerdictView::Failed(error::ErrorView::Protocol(message)),
        }
    }

    /// Whether `handle` is the link that came up.
    pub open spec fn owns(self, handle: u16) -> bool {
        self.connected && handle == self.link.conn_handle
    }

    /// The link is up. Nothing else demands authentication, so it is asked for:
    /// otherwise the link stays unencrypted and the HID channel is refused later.
    pub open spec fn on_connected(self, status: u8, handle: u16) -> PairTurn {
        if status != 0 {
            self.failing("page failed: status 0x"@ + text::hex2(status))
        } else {
            PagePairView {
                link: ClassicLinkView { conn_handle: handle, ..self.link },
                connected: true,
                ..self
            }.going_on(
                seq![
                    StepView::Note("ACL link up, handle 0x"@ + text::hex4(handle)),
                    commands::sent(
                        Opcode::AUTHENTICATION_REQUESTED,
                        bytes::le16(handle),
                        OnFailureView::Report("authentication request failed: "@),
                    ),
                ],
            )
        }
    }

    /// The remote calls while it is being called. Two radios that are both paging are
    /// both deaf, so the page is abandoned and the call answered: it is the link that
    /// was wanted. The role stays what it is.
    pub open spec fn on_called(self) -> PairTurn {
        PagePairView { link: ClassicLinkView { incoming: true, ..self.link }, ..self }.going_on(
            seq![
                StepView::Note("remote is paging us mid-page — answering instead"@),
                commands::awaited(
                    Opcode::CREATE_CONNECTION_CANCEL,
                    self.link.address,
                    OnFailureView::Ignore,
                ),
                commands::sent(
                    Opcode::ACCEPT_CONNECTION_REQUEST,
                    self.link.address + seq![0x01u8],
                    OnFailureView::Abort,
                ),
            ],
        )
    }

    /// The controller wants the stored key. Saying that there is none is what starts
    /// pairing; a host that stays silent here is disconnected.
    pub open spec fn on_key_wanted(self) -> PairTurn {
        match self.link.link_key {
            Some(k) => self.going_on(
                seq![
                    StepView::Note("remote asked for a stored link key — supplying it"@),
                    commands::awaited(
                        Opcode::LINK_KEY_REQUEST_REPLY,
                        self.link.address + k,
                        OnFailureView::Abort,
                    ),
                ],
            ),
            None => self.going_on(
                seq![
                    StepView::Note("no stored key — starting Secure Simple Pairing"@),
                    commands::awaited(
                        Opcode::LINK_KEY_REQUEST_NEGATIVE_REPLY,
                        self.link.address,
                        OnFailureView::Abort,
                    ),
                ],
            ),
        }
    }

    /// The remote asks what this host can display and input: nothing. Claiming
    /// otherwise makes it ask for a comparison that nobody can answer.
    pub open spec fn on_capability_wanted(self) -> PairTurn {
        self.going_on(
            seq![
                commands::awaited(
                    Opcode::IO_CAPABILITY_REQUEST_REPLY,
                    self.link.address + seq![0x03u8, 0x00u8, 0x00u8],
                    OnFailureView::Abort,
                ),
                StepView::Note("declared NoInputNoOutput (Just Works)"@),
            ],
        )
    }

    /// The remote asks for a confirmation, and gets it.
    pub open spec fn on_confirmation_wanted(self) -> PairTurn {
        self.going_on(
            seq![
                commands::awaited(
                    Opcode::USER_CONFIRMATION_REQUEST_REPLY,
                    self.link.address,
                    OnFailureView::Abort,
                ),
                StepView::Note("confirmed pairing"@),
            ],
        )
    }

    /// Pairing produced a key.
    pub open spec fn on_key(self, key: Seq<u8>, key_type: u8) -> PairTurn {
        PagePairView {
            link: ClassicLinkView { link_key: Some(key), ..self.link },
            paired: true,
            ..self
        }.going_on(
            seq![
                StepView::Note(
                    "⭐ link key received (type 0x"@ + text::hex2(key_type) + ")"@,
                ),
            ],
        )
    }

    /// The pairing proper is over.
    pub open spec fn on_paired(self, status: u8) -> PairTurn {
        if status != 0 {
            self.failing("pairing failed: status 0x"@ + text::hex2(status))
        } else {
            self.going_on(seq![StepView::Note("simple pairing complete"@)])
        }
    }

    /// The remote is who it says: encryption is turned on.
    pub open spec fn on_authenticated(self, status: u8, handle: u16) -> PairTurn {
        if status != 0 {
            self.failing("authentication failed: status 0x"@ + text::hex2(status))
        } else {
            self.going_on(
                seq![
                    StepView::Note("authenticated — enabling encryption"@),
                    commands::sent(
                        Opcode::SET_CONNECTION_ENCRYPTION,
                        bytes::le16(handle) + seq![0x01u8],
                        OnFailureView::Abort,
                    ),
                ],
            )
        }
    }

    /// Encryption is on, and the link with it complete; or it was refused.
    pub open spec fn on_encryption(self, status: u8, enabled: u8) -> PairTurn {
        if status == 0 && enabled != 0 {
            let link = ClassicLinkView { encrypted: true, ..self.link };
            PairTurn {
                next: PagePairView { link, ..self },
                steps: seq![StepView::Note("⭐ link encrypted"@)],
                verdict: PairVerdictView::Paired(link),
            }
        } else {
            self.failing(
                "encryption refused: status 0x"@ + text::hex2(status) + " enabled "@
                    + text::decimal(enabled as nat),
            )
        }
    }

    /// The remote is gone.
    pub open spec fn on_dropped(self, reason: u8) -> PairTurn {
        self.failing(
            "remote dropped the link (reason 0x"@ + text::hex2(reason) + ") — paired="@
                + channels::bool_text(self.paired) + ", encrypted="@ + channels::bool_text(
                self.link.encrypted,
            ),
        )
    }

    /// What an event leads to. Events of other devices and other links are none of
    /// this pairing's business.
    pub open spec fn on_event(self, e: hci::EventView) -> PairTurn {
        match e {
            hci::EventView::ConnectionComplete { status, conn_handle, address } if address
                == self.link.address => self.on_connected(status, conn_handle),
            hci::EventView::ConnectionRequest { address, .. } if address == self.link.address
                && !self.connected => self.on_called(),
            hci::EventView::LinkKeyRequest { address } if address == self.link.address => {
                self.on_key_wanted()
            },
            hci::EventView::IoCapabilityRequest { address } if address == self.link.address => {
                self.on_capability_wanted()
            },
            hci::EventView::UserConfirmationRequest { address, .. } if address
                == self.link.address => self.on_confirmation_wanted(),
            hci::EventView::LinkKeyNotification { address, key, key_type } if address
                == self.link.address => self.on_key(key, key_type),
            hci::EventView::SimplePairingComplete { status, address } if address
                == self.link.address => self.on_paired(status),
            hci::EventView::AuthenticationComplete { status, conn_handle } if self.owns(
                conn_handle,
            ) => self.on_authenticated(status, conn_handle),
            hci::EventView::EncryptionChange { status, conn_handle, enabled } if self.owns(
                conn_handle,
            ) => self.on_encryption(status, enabled),
            hci::EventView::DisconnectionComplete { conn_handle, reason } if self.owns(
                conn_handle,
            ) => self.on_dropped(reason),
            _ => self.going_on(seq![]),
        }
    }

    /// What is left to do where time ran out: the link is closed, or the radio taken
    /// out of paging, which would otherwise leave it deaf.
    pub open spec fn closing_steps(self) -> Seq<StepView> {
        if self.connected {
            seq![
                commands::sent(
                    Opcode::DISCONNECT,
                    bytes::le16(self.link.conn_handle) + seq![REASON_USER_ENDED],
                    OnFailureView::Ignore,
                ),
            ]
        } else if self.paging {
            seq![
                commands::awaited(
                    Opcode::CREATE_CONNECTION_CANCEL,
                    self.link.address,
                    OnFailureView::Ignore,
                ),
            ]
        } else {
            seq![]
        }
    }

    /// What is said where time ran out.
    pub open spec fn timeout_text(self) -> Seq<char> {
        "timed out (connected="@ + channels::bool_text(self.connected) + ", paired="@
            + channels::bool_text(self.paired) + ")"@
    }
}

/// Whether `next`, `steps` and `verdict` are what a turn leads to.
pub open spec fn turn_is(t: PairTurn, next: PagePair, steps: Seq<Step>, verdict: PairVerdict) -> bool {
    &&& next@ == t.next
    &&& commands::step_views(steps) == t.steps
    &&& verdict@ == t.verdict
}

/// An address and more, as parameters.
fn address_and(addr: &[u8; 6], more: &[u8]) -> (v: Vec<u8>)
    ensures
        v@ == addr@ + more@,
{
    let mut v = address_params(addr);
    push_all(&mut v, more);
    v
}

/// Build the parameters that page a device.
fn build_page(addr: &[u8; 6], psrm: u8, clock_offset: u16) -> (v: Vec<u8>)
    ensures
        v@ == page_params(addr@, psrm, clock_offset),
{
    let mut v = address_params(addr);
    push16(&mut v, PACKET_TYPES);
    let ghost head = v@;
    v.push(psrm);
    v.push(0x00);
    assert(v@ =~= head + seq![psrm, 0x00u8]);
    push16(&mut v, clock_offset);
    let ghost most = v@;
    v.push(0x01);
    assert(v@ =~= most + seq![0x01u8]);
    v
}

impl PagePair {
    /// Begin paging and pairing, or only pairing where `psrm` is [`NO_PAGE`], and the
    /// steps to begin with.
    pub fn new(
        addr: [u8; 6],
        psrm: u8,
        clock_offset: u16,
        known_key: Option<[u8; 16]>,
        page_slots: u16,
    ) -> (r: (PagePair, Vec<Step>))
        ensures
            r.0@ == PagePairView::initial(addr@, psrm, key_view(known_key)),
            commands::step_views(r.1@) == opening_steps(addr@, psrm, clock_offset, page_slots),
    {
        let mut steps: Vec<Step> = Vec::new();
        let mut on: Vec<u8> = Vec::new();
        on.push(0x01);
        assert(on@ =~= seq![0x01u8]);
        let first = make_step(
            Opcode::WRITE_SIMPLE_PAIRING_MODE,
            on,
            true,
            OnFailure::Report("simple pairing mode refused: ".to_owned()),
        );
        let ghost fv = first@;
        steps.push(first);
        assert(commands::step_views(steps@) =~= seq![fv]);
        if psrm != NO_PAGE {
            let mut slots: Vec<u8> = Vec::new();
            push16(&mut slots, page_slots);
            assert(slots@ =~= bytes::le16(page_slots));
            let second = make_step(Opcode::WRITE_PAGE_TIMEOUT, slots, true, OnFailure::Ignore);
            let third = make_step(
                Opcode::CREATE_CONNECTION,
                build_page(&addr, psrm, clock_offset),
                false,
                OnFailure::Abort,
            );
            let ghost sv = second@;
            let ghost tv = third@;
            steps.push(second);
            steps.push(third);
            assert(commands::step_views(steps@) =~= seq![fv] + seq![sv, tv]);
        } else {
            assert(commands::step_views(steps@) =~= seq![fv] + seq![]);
        }
        (
            PagePair {
                paging: psrm != NO_PAGE,
                link: ClassicLink {
                    conn_handle: 0,
                    address: addr,
                    link_key: known_key,
                    encrypted: false,
                    incoming: psrm == NO_PAGE,
                },
                connected: false,
                paired: known_key.is_some(),
            },
            steps,
        )
    }

    /// Handle the completion of the connection.
    fn take_connected(&mut self, status: u8, handle: u16) -> (r: (Vec<Step>, PairVerdict))
        ensures
            turn_is(old(self)@.on_connected(status, handle), *final(self), r.0@, r.1),
    {
        let mut steps: Vec<Step> = Vec::new();
        if status != 0 {
            assert(commands::step_views(steps@) =~= seq![]);
            return (
                steps,
                PairVerdict::Failed(Error::Protocol(with_byte("page failed: status 0x", status))),
            );
        }
        self.link.conn_handle = handle;
        self.connected = true;
        let mut m = String::new();
        push_text(&mut m, "ACL link up, handle 0x");
        push_hex4(&mut m, handle);
        assert(m@ =~= "ACL link up, handle 0x"@ + text::hex4(handle));
        let note = Step::Note(m);
        let mut params: Vec<u8> = Vec::new();
        push16(&mut params, handle);
        assert(params@ =~= bytes::le16(handle));
        let ask = make_step(
            Opcode::AUTHENTICATION_REQUESTED,
            params,
            false,
            OnFailure::Report("authentication request failed: ".to_owned()),
        );
        let ghost views = seq![note@, ask@];
        steps.push(note);
        steps.push(ask);
        assert(commands::step_views(steps@) =~= views);
        (steps, PairVerdict::Waiting)
    }

    /// Handle a call of the remote.
    fn take_call(&mut self) -> (r: (Vec<Step>, PairVerdict))
        ensures
            turn_is(old(self)@.on_called(), *final(self), r.0@, r.1),
    {
        let mut steps: Vec<Step> = Vec::new();
        let note = Step::Note("remote is paging us mid-page — answering instead".to_owned());
        let cancel = make_step(
            Opcode::CREATE_CONNECTION_CANCEL,
            address_params(&self.link.address),
            true,
            OnFailure::Ignore,
        );
        let mut params = address_params(&self.link.address);
        params.push(0x01);
        assert(params@ =~= self.link.address@ + seq![0x01u8]);
        let accept = make_step(
            Opcode::ACCEPT_CONNECTION_REQUEST,
            params,
            false,
            OnFailure::Abort,
        );
        let ghost views = seq![note@, cancel@, accept@];
        steps.push(note);
        steps.push(cancel);
        steps.push(accept);
        assert(commands::step_views(steps@) =~= views);
        self.link.incoming = true;
        (steps, PairVerdict::Waiting)
    }

    /// Handle a request for the stored key.
    fn take_key_wanted(&self) -> (r: (Vec<Step>, PairVerdict))
        ensures
            turn_is(self@.on_key_wanted(), *self, r.0@, r.1),
    {
        let mut steps: Vec<Step> = Vec::new();
        match self.link.link_key {
            Some(k) => {
                let note = Step::Note(
                    "remote asked for a stored link key — supplying it".to_owned(),
                );
                let reply = make_step(
                    Opcode::LINK_KEY_REQUEST_REPLY,
                    address_and(&self.link.address, k.as_slice()),
                    true,
                    OnFailure::Abort,
                );
                let ghost views = seq![note@, reply@];
                steps.push(note);
                steps.push(reply);
                assert(commands::step_views(steps@) =~= views);
            },
            None => {
                let note = Step::Note(
                    "no stored key — starting Secure Simple Pairing".to_owned(),
                );
                let reply = make_step(
                    Opcode::LINK_KEY_REQUEST_NEGATIVE_REPLY,
                    address_params(&self.link.address),
                    true,
                    OnFailure::Abort,
                );
                let ghost views = seq![note@, reply@];
                steps.push(note);
                steps.push(reply);
                assert(commands::step_views(steps@) =~= views);
            },
        }
        (steps, PairVerdict::Waiting)
    }

    /// Handle a question that is answered by a command and a remark.
    fn answer(&self, opcode: u16, params: Vec<u8>, words: &str) -> (r: (Vec<Step>, PairVerdict))
        ensures
            turn_is(
                self@.going_on(
                    seq![
                        commands::awaited(opcode, params@, OnFailureView::Abort),
                        StepView::Note(words@),
                    ],
                ),
                *self,
                r.0@,
                r.1,
            ),
    {
        let mut steps: Vec<Step> = Vec::new();
        let reply = make_step(opcode, params, true, OnFailure::Abort);
        let note = Step::Note(words.to_owned());
        let ghost views = seq![reply@, note@];
        steps.push(reply);
        steps.push(note);
        assert(commands::step_views(steps@) =~= views);
        (steps, PairVerdict::Waiting)
    }

    /// Handle a new key.
    fn take_key(&mut self, key: [u8; 16], key_type: u8) -> (r: (Vec<Step>, PairVerdict))
        ensures
            turn_is(old(self)@.on_key(key@, key_type), *final(self), r.0@, r.1),
    {
        self.link.link_key = Some(key);
        self.paired = true;
        let mut m = with_byte("⭐ link key received (type 0x", key_type);
        push_text(&mut m, ")");
        let note = Step::Note(m);
        let ghost v = note@;
        let mut steps: Vec<Step> = Vec::new();
        steps.push(note);
        assert(commands::step_views(steps@) =~= seq![v]);
        (steps, PairVerdict::Waiting)
    }

    /// Handle the end of the pairing proper.
    fn take_paired(&self, status: u8) -> (r: (Vec<Step>, PairVerdict))
        ensures
            turn_is(self@.on_paired(status), *self, r.0@, r.1),
    {
        let mut steps: Vec<Step> = Vec::new();
        if status != 0 {
            assert(commands::step_views(steps@) =~= seq![]);
            return (
                steps,
                PairVerdict::Failed(
                    Error::Protocol(with_byte("pairing failed: status 0x", status)),
                ),
            );
        }
        let note = Step::Note("simple pairing complete".to_owned());
        let ghost v = note@;
        steps.push(note);
        assert(commands::step_views(steps@) =~= seq![v]);
        (steps, PairVerdict::Waiting)
    }

    /// Handle the end of the authentication.
    fn take_authenticated(&self, status: u8, handle: u16) -> (r: (Vec<Step>, PairVerdict))
        ensures
            turn_is(self@.on_authenticated(status, handle), *self, r.0@, r.1),
    {
        let mut steps: Vec<Step> = Vec::new();
        if status != 0 {
            assert(commands::step_views(steps@) =~= seq![]);
            return (
                steps,
                PairVerdict::Failed(
                    Error::Protocol(with_byte("authentication failed: status 0x", status)),
                ),
            );
        }
        let note = Step::Note("authenticated — enabling encryption".to_owned());
        let mut params: Vec<u8> = Vec::new();
        push16(&mut params, handle);
        params.push(0x01);
        assert(params@ =~= bytes::le16(handle) + seq![0x01u8]);
        let turn_on = make_step(
            Opcode::SET_CONNECTION_ENCRYPTION,
            params,
            false,
            OnFailure::Abort,
        );
        let ghost views = seq![note@, turn_on@];
        steps.push(note);
        steps.push(turn_on);
        assert(commands::step_views(steps@) =~= views);
        (steps, PairVerdict::Waiting)
    }

    /// Handle a change of encryption.
    fn take_encryption(&mut self, status: u8, enabled: u8) -> (r: (Vec<Step>, PairVerdict))
        ensures
            turn_is(old(self)@.on_encryption(status, enabled), *final(self), r.0@, r.1),
    {
        let mut steps: Vec<Step> = Vec::new();
        if status == 0 && enabled != 0 {
            self.link.encrypted = true;
            let note = Step::Note("⭐ link encrypted".to_owned());
            let ghost v = note@;
            steps.push(note);
            assert(commands::step_views(steps@) =~= seq![v]);
            return (steps, PairVerdict::Paired(self.link));
        }
        assert(commands::step_views(steps@) =~= seq![]);
        let mut m = with_byte("encryption refused: status 0x", status);
        push_text(&mut m, " enabled ");
        push_decimal(&mut m, enabled as usize);
        (steps, PairVerdict::Failed(Error::Protocol(m)))
    }

    /// Handle the loss of the link.
    fn take_dropped(&self, reason: u8) -> (r: (Vec<Step>, PairVerdict))
        ensures
            turn_is(self@.on_dropped(reason), *self, r.0@, r.1),
    {
        let steps: Vec<Step> = Vec::new();
        assert(commands::step_views(steps@) =~= seq![]);
        let mut m = with_byte("remote dropped the link (reason 0x", reason);
        push_text(&mut m, ") — paired=");
        push_bool(&mut m, self.paired);
        push_text(&mut m, ", encrypted=");
        push_bool(&mut m, self.link.encrypted);
        (steps, PairVerdict::Failed(Error::Protocol(m)))
    }

    /// Whether `handle` is the link that came up.
    fn is_own(&self, handle: u16) -> (r: bool)
        ensures
            r == self@.owns(handle),
    {
        self.connected && handle == self.link.conn_handle
    }

    /// Take one event into account: what to do, and whether it is over.
    pub fn step(&mut self, event: &Event) -> (r: (Vec<Step>, PairVerdict))
        ensures
            turn_is(old(self)@.on_event(event@), *final(self), r.0@, r.1),
    {
        match event {
            Event::ConnectionComplete { status, conn_handle, address } => {
                if same_address(address, &self.link.address) {
                    return self.take_connected(*status, *conn_handle);
                }
            },
            Event::ConnectionRequest { address, .. } => {
                if same_address(address, &self.link.address) && !self.connected {
                    return self.take_call();
                }
            },
            Event::LinkKeyRequest { address } => {
                if same_address(address, &self.link.address) {
                    return self.take_key_wanted();
                }
            },
            Event::IoCapabilityRequest { address } => {
                if same_address(address, &self.link.address) {
                    let caps: [u8; 3] = [0x03, 0x00, 0x00];
                    let params = address_and(&self.link.address, caps.as_slice());
                    assert(params@ =~= self.link.address@ + seq![0x03u8, 0x00u8, 0x00u8]);
                    return self.answer(
                        Opcode::IO_CAPABILITY_REQUEST_REPLY,
                        params,
                        "declared NoInputNoOutput (Just Works)",
                    );
                }
            },
            Event::UserConfirmationRequest { address, .. } => {
                if same_address(address, &self.link.address) {
                    return self.answer(
                        Opcode::USER_CONFIRMATION_REQUEST_REPLY,
                        address_params(&self.link.address),
                        "confirmed pairing",
                    );
                }
            },
            Event::LinkKeyNotification { address, key, key_type } => {
                if same_address(address, &self.link.address) {
                    return self.take_key(*key, *key_type);
                }
            },
            Event::SimplePairingComplete { status, address } => {
                if same_address(address, &self.link.address) {
                    return self.take_paired(*status);
                }
            },
            Event::AuthenticationComplete { status, conn_handle } => {
                if self.is_own(*conn_handle) {
                    return self.take_authenticated(*status, *conn_handle);
                }
            },
            Event::EncryptionChange { status, conn_handle, enabled } => {
                if self.is_own(*conn_handle) {
                    return self.take_encryption(*status, *enabled);
                }
            },
            Event::DisconnectionComplete { conn_handle, reason } => {
                if self.is_own(*conn_handle) {
                    return self.take_dropped(*reason);
                }
            },
            _ => {},
        }
        let steps: Vec<Step> = Vec::new();
        assert(commands::step_views(steps@) =~= seq![]);
        (steps, PairVerdict::Waiting)
    }

    /// Give up for want of time: what is left to do, and the error to end with.
    pub fn give_up(&self) -> (r: (Vec<Step>, Error))
        ensures
            commands::step_views(r.0@) == self@.closing_steps(),
            r.1@ == error::ErrorView::Protocol(self@.timeout_text()),
    {
        let mut steps: Vec<Step> = Vec::new();
        if self.connected {
            let mut params: Vec<u8> = Vec::new();
            push16(&mut params, self.link.conn_handle);
            params.push(REASON_USER_ENDED);
            assert(params@ =~= bytes::le16(self.link.conn_handle) + seq![REASON_USER_ENDED]);
            let s = make_step(Opcode::DISCONNECT, params, false, OnFailure::Ignore);
            let ghost v = s@;
            steps.push(s);
            assert(commands::step_views(steps@) =~= seq![v]);
        } else if self.paging {
            let s = make_step(
                Opcode::CREATE_CONNECTION_CANCEL,
                address_params(&self.link.address),
                true,
                OnFailure::Ignore,
            );
            let ghost v = s@;
            steps.push(s);
            assert(commands::step_views(steps@) =~= seq![v]);
        } else {
            assert(commands::step_views(steps@) =~= seq![]);
        }
        let mut m = String::new();
        push_text(&mut m, "timed out (connected=");
        push_bool(&mut m, self.connected);
        push_text(&mut m, ", paired=");
        push_bool(&mut m, self.paired);
        push_text(&mut m, ")");
        assert(m@ =~= self@.timeout_text());
        (steps, Error::Protocol(m))
    }
}

/// A pairing succeeds only by its own link being encrypted, and what it hands over is
/// that link: to the device that was asked for, with the key that it has.
pub proof fn success_means_encrypted(s: PagePairView, e: hci::EventView)
    requires
        s.on_event(e).verdict is Paired,
    ensures
        s.connected,
        e matches hci::EventView::EncryptionChange { status, conn_handle, enabled } && status == 0
            && enabled != 0 && conn_handle == s.link.conn_handle,
        s.on_event(e).verdict == PairVerdictView::Paired(
            ClassicLinkView { encrypted: true, ..s.link },
        ),
{
}

/// The address that is being paired with never changes, and the key only by a
/// notification for it.
pub proof fn a_key_comes_only_from_its_device(s: PagePairView, e: hci::EventView)
    ensures
        s.on_event(e).next.link.address == s.link.address,
        s.on_event(e).next.link.link_key != s.link.link_key ==> (e matches
            hci::EventView::LinkKeyNotification { address, key, .. } && address == s.link.address
            && s.on_event(e).next.link.link_key == Some(key)),
{
}

/// A request for the key of the device is always answered: with the key where there is
/// one, and otherwise by saying that there is none.
pub proof fn a_key_request_is_never_left_open(s: PagePairView)
    ensures
        ({
            let t = s.on_event(hci::EventView::LinkKeyRequest { address: s.link.address });
            &&& t.verdict is Waiting
            &&& t.next == s
            &&& t.steps.len() == 2
            &&& s.link.link_key matches Some(k) ==> t.steps[1] == commands::awaited(
                Opcode::LINK_KEY_REQUEST_REPLY,
                s.link.address + k,
                OnFailureView::Abort,
            )
            &&& s.link.link_key is None ==> t.steps[1] == commands::awaited(
                Opcode::LINK_KEY_REQUEST_NEGATIVE_REPLY,
                s.link.address,
                OnFailureView::Abort,
            )
        }),
{
}

/// Until its link is up, a call of the device is answered instead of paged past; and
/// the link that comes of it counts as incoming.
pub proof fn a_call_is_answered(s: PagePairView, class_of_device: Seq<u8>, link_type: u8)
    requires
        !s.connected,
    ensures
        ({
            let t = s.on_event(
                hci::EventView::ConnectionRequest {
                    address: s.link.address,
                    class_of_device,
                    link_type,
                },
            );
            &&& t.next.link.incoming
            &&& t.verdict is Waiting
            &&& t.steps.last() == commands::sent(
                Opcode::ACCEPT_CONNECTION_REQUEST,
                s.link.address + seq![0x01u8],
                OnFailureView::Abort,
            )
        }),
{
}

/// The address that an event names, where it names one.
pub open spec fn named_address(e: hci::EventView) -> Option<Seq<u8>> {
    match e {
        hci::EventView::ConnectionComplete { address, .. } => Some(address),
        hci::EventView::ConnectionRequest { address, .. } => Some(address),
        hci::EventView::LinkKeyRequest { address } => Some(address),
        hci::EventView::IoCapabilityRequest { address } => Some(address),
        hci::EventView::UserConfirmationRequest { address, .. } => Some(address),
        hci::EventView::LinkKeyNotification { address, .. } => Some(address),
        hci::EventView::SimplePairingComplete { address, .. } => Some(address),
        _ => None,
    }
}

/// The link that an event is about, where it is about one.
pub open spec fn named_link(e: hci::EventView) -> Option<u16> {
    match e {
        hci::EventView::AuthenticationComplete { conn_handle, .. } => Some(conn_handle),
        hci::EventView::EncryptionChange { conn_handle, .. } => Some(conn_handle),
        hci::EventView::DisconnectionComplete { conn_handle, .. } => Some(conn_handle),
        _ => None,
    }
}

/// Events of other devices and of other links change nothing.
pub proof fn other_devices_are_ignored(s: PagePairView, e: hci::EventView)
    requires
        named_address(e) matches Some(a) ==> a != s.link.address,
        named_link(e) matches Some(h) ==> !s.owns(h),
    ensures
        s.on_event(e) == s.going_on(seq![]),
{
}

/// Giving up never leaves the radio paging nor a link behind.
pub proof fn giving_up_leaves_nothing_behind(s: PagePairView)
    ensures
        s.connected ==> s.closing_steps() == seq![
            commands::sent(
                Opcode::DISCONNECT,
                bytes::le16(s.link.conn_handle) + seq![REASON_USER_ENDED],
                OnFailureView::Ignore,
            ),
        ],
        !s.connected && s.paging ==> s.closing_steps() == seq![
            commands::awaited(
                Opcode::CREATE_CONNECTION_CANCEL,
                s.link.address,
                OnFailureView::Ignore,
            ),
        ],
{
}

/// The pairing after some events.
pub open spec fn after(start: PagePairView, events: Seq<hci::EventView>) -> PagePairView
    decreases events.len(),
{
    if events.len() == 0 {
        start
    } else {
        after(start, events.drop_last()).on_event(events.last()).next
    }
}

/// Everything that was done about some events.
pub open spec fn done_about(start: PagePairView, events: Seq<hci::EventView>) -> Seq<StepView>
    decreases events.len(),
{
    if events.len() == 0 {
        seq![]
    } else {
        done_about(start, events.drop_last()) + after(start, events.drop_last()).on_event(
            events.last(),
        ).steps
    }
}

/// Whether none of some events decided the pairing.
pub open spec fn undecided(start: PagePairView, events: Seq<hci::EventView>) -> bool
    decreases events.len(),
{
    events.len() > 0 ==> {
        &&& undecided(start, events.drop_last())
        &&& after(start, events.drop_last()).on_event(events.last()).verdict is Waiting
    }
}

/// The handle under which an event brings up a link to the device at `addr`.
pub open spec fn brought_up(e: hci::EventView, addr: Seq<u8>) -> Option<u16> {
    match e {
        hci::EventView::ConnectionComplete { status, conn_handle, address } if address == addr
            && status == 0 => Some(conn_handle),
        _ => None,
    }
}

/// The key that an event tells for the device at `addr`.
pub open spec fn told_key(e: hci::EventView, addr: Seq<u8>) -> Option<Seq<u8>> {
    match e {
        hci::EventView::LinkKeyNotification { address, key, .. } if address == addr => Some(key),
        _ => None,
    }
}

/// Whether event `i` brought up the link to the device at `addr` as `handle`, and no event
/// behind it did so anew.
pub open spec fn up_by(events: Seq<hci::EventView>, i: int, addr: Seq<u8>, handle: u16) -> bool {
    &&& 0 <= i < events.len()
    &&& brought_up(events[i], addr) == Some(handle)
    &&& forall|k: int| i < k < events.len() ==> brought_up(#[trigger] events[k], addr) is None
}

/// Whether none of the first `n` events brought up a link to the device at `addr`.
pub open spec fn not_up_before(events: Seq<hci::EventView>, n: int, addr: Seq<u8>) -> bool {
    forall|k: int| 0 <= k < n ==> brought_up(#[trigger] events[k], addr) is None
}

/// Whether event `i` told the key of the device at `addr`, and no event behind it told
/// another.
pub open spec fn told_by(events: Seq<hci::EventView>, i: int, addr: Seq<u8>, key: Seq<u8>) -> bool {
    &&& 0 <= i < events.len()
    &&& told_key(events[i], addr) == Some(key)
    &&& forall|k: int| i < k < events.len() ==> told_key(#[trigger] events[k], addr) is None
}

/// Whether no event told a key of the device at `addr`.
pub open spec fn never_told(events: Seq<hci::EventView>, addr: Seq<u8>) -> bool {
    forall|k: int| 0 <= k < events.len() ==> told_key(#[trigger] events[k], addr) is None
}

/// Whether the device at `addr` called by event `i`, before its link was up.
pub open spec fn called_by(events: Seq<hci::EventView>, i: int, addr: Seq<u8>) -> bool {
    &&& 0 <= i < events.len()
    &&& events[i] matches hci::EventView::ConnectionRequest { address, .. }
    &&& address == addr
    &&& not_up_before(events, i, addr)
}

/// Whether `key` is what some events leave of a pairing's key: the one that was told last,
/// or else the one that was known.
pub open spec fn holds_key(
    addr: Seq<u8>,
    known_key: Option<Seq<u8>>,
    events: Seq<hci::EventView>,
    key: Option<Seq<u8>>,
) -> bool {
    ||| key == known_key && never_told(events, addr)
    ||| key is Some && exists|i: int| #[trigger] told_by(events, i, addr, key->0)
}

/// Whether a pairing is as some events account for it: its link is the one that came up
/// last, its key the one that was told last, or else the one that was known, and it counts
/// as incoming where it was never paged for or the device called first.
pub open spec fn accounted_for(
    addr: Seq<u8>,
    psrm: u8,
    known_key: Option<Seq<u8>>,
    events: Seq<hci::EventView>,
    now: PagePairView,
) -> bool {
    &&& now.paging == (psrm != NO_PAGE)
    &&& now.link.address == addr
    &&& if now.connected {
        exists|i: int| #[trigger] up_by(events, i, addr, now.link.conn_handle)
    } else {
        not_up_before(events, events.len() as int, addr)
    }
    &&& holds_key(addr, known_key, events, now.link.link_key)
    &&& now.paired == (now.link.link_key is Some)
    &&& now.link.incoming == (psrm == NO_PAGE || exists|i: int| #[trigger]
        called_by(events, i, addr))
}

/// What an event does to a pairing.
spec fn moves(was: PagePairView, e: hci::EventView, now: PagePairView) -> bool {
    let addr = was.link.address;
    &&& now.paging == was.paging
    &&& now.link.address == addr
    &&& match brought_up(e, addr) {
        Some(handle) => now.connected && now.link.conn_handle == handle,
        None => now.connected == was.connected && now.link.conn_handle == was.link.conn_handle,
    }
    &&& match told_key(e, addr) {
        Some(key) => now.paired && now.link.link_key == Some(key),
        None => now.paired == was.paired && now.link.link_key == was.link.link_key,
    }
    &&& now.link.incoming == (was.link.incoming || (!was.connected && (e matches
        hci::EventView::ConnectionRequest { address, .. } && address == addr)))
}

/// What an event does to a pairing.
proof fn an_event(was: PagePairView, e: hci::EventView)
    ensures
        moves(was, e, was.on_event(e).next),
{
}

/// One more event is accounted for.
proof fn one_more_event(
    addr: Seq<u8>,
    psrm: u8,
    known_key: Option<Seq<u8>>,
    events: Seq<hci::EventView>,
    was: PagePairView,
    now: PagePairView,
)
    requires
        events.len() > 0,
        accounted_for(addr, psrm, known_key, events.drop_last(), was),
        moves(was, events.last(), now),
    ensures
        accounted_for(addr, psrm, known_key, events, now),
{
    let most = events.drop_last();
    let e = events.last();
    let n = events.len() - 1;
    assert(events[n] == e);
    assert(forall|k: int| 0 <= k < n ==> most[k] == #[trigger] events[k]);
    if brought_up(e, addr) is Some {
        assert(up_by(events, n, addr, now.link.conn_handle));
    } else if was.connected {
        let i = choose|i: int| #[trigger] up_by(most, i, addr, was.link.conn_handle);
        assert(events[i] == most[i]);
        assert(up_by(events, i, addr, now.link.conn_handle));
    }
    if told_key(e, addr) is Some {
        assert(told_by(events, n, addr, now.link.link_key->0));
    } else if let Some(key) = was.link.link_key {
        if exists|i: int| #[trigger] told_by(most, i, addr, key) {
            let i = choose|i: int| #[trigger] told_by(most, i, addr, key);
            assert(events[i] == most[i]);
            assert(told_by(events, i, addr, key));
        }
    }
    assert forall|i: int| 0 <= i <= n implies #[trigger] not_up_before(events, i, addr)
        == not_up_before(most, i, addr) by {
        if !not_up_before(events, i, addr) {
            let k = choose|k: int| 0 <= k < i && brought_up(#[trigger] events[k], addr) is Some;
            assert(brought_up(most[k], addr) is Some);
        }
        if !not_up_before(most, i, addr) {
            let k = choose|k: int| 0 <= k < i && brought_up(#[trigger] most[k], addr) is Some;
            assert(brought_up(events[k], addr) is Some);
        }
    }
    if exists|i: int| #[trigger] called_by(most, i, addr) {
        let i = choose|i: int| #[trigger] called_by(most, i, addr);
        assert(not_up_before(events, i, addr));
        assert(called_by(events, i, addr));
    }
    if !was.connected {
        assert(not_up_before(events, n, addr));
        if e matches hci::EventView::ConnectionRequest { address, .. } && address == addr {
            assert(called_by(events, n, addr));
        }
    }
    if exists|i: int| #[trigger] called_by(events, i, addr) {
        let i = choose|i: int| #[trigger] called_by(events, i, addr);
        if i < n {
            assert(not_up_before(events, i, addr));
            assert(called_by(most, i, addr));
        } else if was.connected {
            let k = choose|k: int| #[trigger] up_by(most, k, addr, was.link.conn_handle);
            assert(brought_up(events[k], addr) is Some);
        }
    }
}

/// Throughout a pairing, whatever happens and in whatever order, it is as the events
/// account for it, as [`accounted_for`] spells out.
pub proof fn a_pairing_is_what_it_was_told(
    addr: Seq<u8>,
    psrm: u8,
    known_key: Option<Seq<u8>>,
    events: Seq<hci::EventView>,
)
    ensures
        accounted_for(
            addr,
            psrm,
            known_key,
            events,
            after(PagePairView::initial(addr, psrm, known_key), events),
        ),
    decreases events.len(),
{
    let start = PagePairView::initial(addr, psrm, known_key);
    if events.len() > 0 {
        let was = after(start, events.drop_last());
        a_pairing_is_what_it_was_told(addr, psrm, known_key, events.drop_last());
        an_event(was, events.last());
        one_more_event(addr, psrm, known_key, events, was, after(start, events));
    }
}

/// Whether an event completes `link` behind some others: it reports on the encryption of the
/// link that came up last to the device, whose key is the one that is held.
pub open spec fn completes(
    addr: Seq<u8>,
    psrm: u8,
    known_key: Option<Seq<u8>>,
    events: Seq<hci::EventView>,
    last: hci::EventView,
    link: ClassicLinkView,
) -> bool {
    &&& last matches hci::EventView::EncryptionChange { status, conn_handle, enabled }
    &&& status == 0
    &&& enabled != 0
    &&& conn_handle == link.conn_handle
    &&& exists|i: int| #[trigger] up_by(events, i, addr, link.conn_handle)
    &&& link.address == addr
    &&& link.encrypted
    &&& holds_key(addr, known_key, events, link.link_key)
    &&& link.incoming == (psrm == NO_PAGE || exists|i: int| #[trigger] called_by(events, i, addr))
}

/// Whatever happened before, a pairing succeeds exactly where the encryption of its own link
/// is reported on, the one that came up last to the device that was asked for. What it hands
/// over is that link, with the key that was told last, or else the one that was known.
pub proof fn success_means_connected_keyed_and_encrypted(
    addr: Seq<u8>,
    psrm: u8,
    known_key: Option<Seq<u8>>,
    events: Seq<hci::EventView>,
    last: hci::EventView,
    link: ClassicLinkView,
)
    ensures
        ({
            let was = after(PagePairView::initial(addr, psrm, known_key), events);
            (was.on_event(last).verdict == PairVerdictView::Paired(link)) == completes(
                addr,
                psrm,
                known_key,
                events,
                last,
                link,
            )
        }),
{
    let was = after(PagePairView::initial(addr, psrm, known_key), events);
    a_pairing_is_what_it_was_told(addr, psrm, known_key, events);
    if was.on_event(last).verdict is Paired {
        success_means_encrypted(was, last);
    }
    if was.on_event(last).verdict == PairVerdictView::Paired(link) {
        assert(link.conn_handle == was.link.conn_handle);
        assert(completes(addr, psrm, known_key, events, last, link));
    }
    if completes(addr, psrm, known_key, events, last, link) {
        let i = choose|i: int| #[trigger] up_by(events, i, addr, link.conn_handle);
        assert(brought_up(events[i], addr) is Some);
        assert(was.connected);
        let k = choose|k: int| #[trigger] up_by(events, k, addr, was.link.conn_handle);
        assert(i == k);
        assert(link.link_key == was.link.link_key) by {
            if !never_told(events, addr) {
                let i = choose|i: int| #[trigger] told_by(events, i, addr, link.link_key->0);
                let k = choose|k: int| #[trigger] told_by(events, k, addr, was.link.link_key->0);
                assert(i == k);
            }
        }
        assert(link =~= ClassicLinkView { encrypted: true, ..was.link });
        assert(was.on_event(last).verdict == PairVerdictView::Paired(link));
    }
}

/// As long as nothing is decided, the link does not count as encrypted: that it is ends the
/// pairing.
pub proof fn encryption_ends_the_pairing(
    addr: Seq<u8>,
    psrm: u8,
    known_key: Option<Seq<u8>>,
    events: Seq<hci::EventView>,
)
    requires
        undecided(PagePairView::initial(addr, psrm, known_key), events),
    ensures
        !after(PagePairView::initial(addr, psrm, known_key), events).link.encrypted,
    decreases events.len(),
{
    if events.len() > 0 {
        encryption_ends_the_pairing(addr, psrm, known_key, events.drop_last());
    }
}

/// What is owed for an event: a call is answered, a link that came up is authenticated and
/// one that is authenticated is encrypted, and what the device asks for it gets, the key that
/// is held among it, or the word that there is none.
pub open spec fn owed(s: PagePairView, e: hci::EventView) -> Seq<StepView> {
    let addr = s.link.address;
    match e {
        hci::EventView::ConnectionComplete { status, conn_handle, address } if address == addr
            && status == 0 => seq![
            commands::sent(
                Opcode::AUTHENTICATION_REQUESTED,
                bytes::le16(conn_handle),
                OnFailureView::Report("authentication request failed: "@),
            ),
        ],
        hci::EventView::ConnectionRequest { address, .. } if address == addr && !s.connected => seq![
            commands::awaited(Opcode::CREATE_CONNECTION_CANCEL, addr, OnFailureView::Ignore),
            commands::sent(
                Opcode::ACCEPT_CONNECTION_REQUEST,
                addr + seq![0x01u8],
                OnFailureView::Abort,
            ),
        ],
        hci::EventView::LinkKeyRequest { address } if address == addr => match s.link.link_key {
            Some(k) => seq![
                commands::awaited(Opcode::LINK_KEY_REQUEST_REPLY, addr + k, OnFailureView::Abort),
            ],
            None => seq![
                commands::awaited(
                    Opcode::LINK_KEY_REQUEST_NEGATIVE_REPLY,
                    addr,
                    OnFailureView::Abort,
                ),
            ],
        },
        hci::EventView::IoCapabilityRequest { address } if address == addr => seq![
            commands::awaited(
                Opcode::IO_CAPABILITY_REQUEST_REPLY,
                addr + seq![0x03u8, 0x00u8, 0x00u8],
                OnFailureView::Abort,
            ),
        ],
        hci::EventView::UserConfirmationRequest { address, .. } if address == addr => seq![
            commands::awaited(Opcode::USER_CONFIRMATION_REQUEST_REPLY, addr, OnFailureView::Abort),
        ],
        hci::EventView::AuthenticationComplete { status, conn_handle } if s.owns(conn_handle)
            && status == 0 => seq![
            commands::sent(
                Opcode::SET_CONNECTION_ENCRYPTION,
                bytes::le16(conn_handle) + seq![0x01u8],
                OnFailureView::Abort,
            ),
        ],
        _ => seq![],
    }
}

/// What is owed for an event is done.
proof fn an_event_is_answered(s: PagePairView, e: hci::EventView, k: int)
    requires
        0 <= k < owed(s, e).len(),
    ensures
        s.on_event(e).steps.contains(owed(s, e)[k]),
{
    let steps = s.on_event(e).steps;
    match e {
        hci::EventView::IoCapabilityRequest { .. } => {
            assert(steps[0] == owed(s, e)[k]);
        },
        hci::EventView::UserConfirmationRequest { .. } => {
            assert(steps[0] == owed(s, e)[k]);
        },
        _ => {
            assert(steps[k + 1] == owed(s, e)[k]);
        },
    }
}

/// What was done about an event stays done.
proof fn what_was_done_stays(
    start: PagePairView,
    events: Seq<hci::EventView>,
    j: int,
    step: StepView,
)
    requires
        0 <= j < events.len(),
        after(start, events.take(j)).on_event(events[j]).steps.contains(step),
    ensures
        done_about(start, events).contains(step),
    decreases events.len(),
{
    let most = events.drop_last();
    let early = done_about(start, most);
    let late = after(start, most).on_event(events.last()).steps;
    let all = done_about(start, events);
    if j == events.len() - 1 {
        assert(events.take(j) =~= most);
        let k = choose|k: int| 0 <= k < late.len() && late[k] == step;
        assert(all[early.len() + k] == step);
    } else {
        assert(events.take(j) =~= most.take(j));
        what_was_done_stays(start, most, j, step);
        let k = choose|k: int| 0 <= k < early.len() && early[k] == step;
        assert(all[k] == step);
    }
}

/// Throughout a pairing no event is left without what is owed for it.
pub proof fn every_event_is_answered(start: PagePairView, events: Seq<hci::EventView>, j: int)
    requires
        0 <= j < events.len(),
    ensures
        forall|step: StepView|
            owed(after(start, events.take(j)), events[j]).contains(step) ==> #[trigger] done_about(
                start,
                events,
            ).contains(step),
{
    let was = after(start, events.take(j));
    let all = owed(was, events[j]);
    assert forall|step: StepView| all.contains(step) implies #[trigger] done_about(
        start,
        events,
    ).contains(step) by {
        let k = choose|k: int| 0 <= k < all.len() && all[k] == step;
        an_event_is_answered(was, events[j], k);
        what_was_done_stays(start, events, j, step);
    }
}

/// Whatever happened before, giving up closes the link that came up last; where none did, it
/// takes the radio out of paging, and where nobody was paged, it does nothing.
pub proof fn giving_up_undoes_what_was_done(
    addr: Seq<u8>,
    psrm: u8,
    known_key: Option<Seq<u8>>,
    events: Seq<hci::EventView>,
)
    ensures
        ({
            let steps = after(
                PagePairView::initial(addr, psrm, known_key),
                events,
            ).closing_steps();
            &&& forall|i: int, handle: u16| #[trigger]
                up_by(events, i, addr, handle) ==> steps == seq![
                    commands::sent(
                        Opcode::DISCONNECT,
                        bytes::le16(handle) + seq![REASON_USER_ENDED],
                        OnFailureView::Ignore,
                    ),
                ]
            &&& not_up_before(events, events.len() as int, addr) ==> steps == if psrm == NO_PAGE {
                seq![]
            } else {
                seq![
                    commands::awaited(
                        Opcode::CREATE_CONNECTION_CANCEL,
                        addr,
                        OnFailureView::Ignore,
                    ),
                ]
            }
        }),
{
    let now = after(PagePairView::initial(addr, psrm, known_key), events);
    a_pairing_is_what_it_was_told(addr, psrm, known_key, events);
    assert forall|i: int, handle: u16| #[trigger] up_by(events, i, addr, handle) implies now.connected
        && now.link.conn_handle == handle by {
        assert(brought_up(events[i], addr) is Some);
        let k = choose|k: int| #[trigger] up_by(events, k, addr, now.link.conn_handle);
        assert(i == k);
    }
    if now.connected {
        let k = choose|k: int| #[trigger] up_by(events, k, addr, now.link.conn_handle);
        assert(brought_up(events[k], addr) is Some);
    }
}

/// What pages a device: its address as it is, the packet types that it may use, how it scans,
/// a zero, its clock offset, and that it may switch roles.
pub proof fn a_page_stands_by_its_bytes(addr: Seq<u8>, psrm: u8, clock_offset: u16)
    requires
        addr.len() == 6,
    ensures
        ({
            let p = page_params(addr, psrm, clock_offset);
            &&& p.len() == 13
            &&& p.take(6) == addr
            &&& p[6] == 0x18 && p[7] == 0xCC
            &&& p[8] == psrm && p[9] == 0
            &&& p[10] + 256 * p[11] == clock_offset
            &&& p[12] == 1
        }),
{
    let p = page_params(addr, psrm, clock_offset);
    assert(p.take(6) =~= addr);
    let c = bytes::le16(clock_offset);
    assert(p[10] == c[0] && p[11] == c[1]);
}

/// The commands among some steps, in order: what is carried out, rather than said.
pub open spec fn commands_among(steps: Seq<StepView>) -> Seq<(u16, Seq<u8>)>
    decreases steps.len(),
{
    if steps.len() == 0 {
        seq![]
    } else {
        let rest = commands_among(steps.drop_last());
        match steps.last() {
            StepView::Do(c) => rest.push((c.opcode.0, c.params)),
            StepView::Note(_) => rest,
        }
    }
}

/// What is carried out among one step and more.
proof fn among_step(steps: Seq<StepView>, s: StepView)
    ensures
        commands_among(steps.push(s)) == (match s {
            StepView::Do(c) => commands_among(steps).push((c.opcode.0, c.params)),
            StepView::Note(_) => commands_among(steps),
        }),
{
    assert(steps.push(s).drop_last() =~= steps);
}

/// What is carried out among up to three steps.
proof fn among_few(steps: Seq<StepView>)
    requires
        steps.len() <= 3,
    ensures
        ({
            let one = |s: StepView|
                match s {
                    StepView::Do(c) => seq![(c.opcode.0, c.params)],
                    StepView::Note(_) => seq![],
                };
            commands_among(steps) == if steps.len() == 0 {
                seq![]
            } else if steps.len() == 1 {
                one(steps[0])
            } else if steps.len() == 2 {
                one(steps[0]) + one(steps[1])
            } else {
                one(steps[0]) + one(steps[1]) + one(steps[2])
            }
        }),
{
    let e = Seq::<StepView>::empty();
    assert(commands_among(e) =~= seq![]);
    if steps.len() >= 1 {
        among_step(e, steps[0]);
        assert(steps.take(1) =~= e.push(steps[0]));
    }
    if steps.len() >= 2 {
        among_step(steps.take(1), steps[1]);
        assert(steps.take(2) =~= steps.take(1).push(steps[1]));
    }
    if steps.len() >= 3 {
        among_step(steps.take(2), steps[2]);
        assert(steps.take(3) =~= steps.take(2).push(steps[2]));
    }
    assert(steps.take(steps.len() as int) =~= steps);
    let one = |s: StepView|
        match s {
            StepView::Do(c) => seq![(c.opcode.0, c.params)],
            StepView::Note(_) => seq![],
        };
    assert(commands_among(steps) =~= if steps.len() == 0 {
        seq![]
    } else if steps.len() == 1 {
        one(steps[0])
    } else if steps.len() == 2 {
        one(steps[0]) + one(steps[1])
    } else {
        one(steps[0]) + one(steps[1]) + one(steps[2])
    });
}

/// A pairing begins by switching simple pairing on. A device that is to be paged is then
/// paged, for as long as was asked; one that is calling already is not.
pub proof fn a_pairing_begins_with_a_page_or_without(
    addr: Seq<u8>,
    psrm: u8,
    clock_offset: u16,
    slots: u16,
)
    ensures
        commands_among(opening_steps(addr, psrm, clock_offset, slots)) == if psrm == 0xFF {
            seq![(0x0C56u16, seq![1u8])]
        } else {
            seq![
                (0x0C56u16, seq![1u8]),
                (0x0C18u16, seq![(slots % 256) as u8, (slots / 256) as u8]),
                (0x0405u16, page_params(addr, psrm, clock_offset)),
            ]
        },
        PagePairView::initial(addr, psrm, None).paging == (psrm != 0xFF),
        PagePairView::initial(addr, psrm, None).link.incoming == (psrm == 0xFF),
{
    among_few(opening_steps(addr, psrm, clock_offset, slots));
}

/// A link that came up is authenticated, one that is authenticated has its encryption
/// switched on, and nothing else is done for either.
pub proof fn a_link_is_authenticated_then_encrypted(s: PagePairView, handle: u16)
    ensures
        ({
            let up = s.on_event(
                hci::EventView::ConnectionComplete {
                    status: 0,
                    conn_handle: handle,
                    address: s.link.address,
                },
            );
            let known = up.next.on_event(
                hci::EventView::AuthenticationComplete { status: 0, conn_handle: handle },
            );
            let h = seq![(handle % 256) as u8, (handle / 256) as u8];
            &&& commands_among(up.steps) == seq![(0x0411u16, h)]
            &&& commands_among(known.steps) == seq![(0x0413u16, h + seq![0x01u8])]
            &&& up.verdict is Waiting && known.verdict is Waiting
            &&& up.next.connected && up.next.link.conn_handle == handle
        }),
{
    let up = s.on_event(
        hci::EventView::ConnectionComplete {
            status: 0,
            conn_handle: handle,
            address: s.link.address,
        },
    );
    let known = up.next.on_event(
        hci::EventView::AuthenticationComplete { status: 0, conn_handle: handle },
    );
    among_few(up.steps);
    among_few(known.steps);
}

/// What a device asks for it gets, and nothing else is done: its key or the word that there is
/// none, that this host can neither show nor ask anything, and a confirmation. A call is
/// answered in place of the page, and no role is switched.
pub proof fn what_is_asked_is_answered(
    s: PagePairView,
    numeric: u32,
    class: Seq<u8>,
    link_type: u8,
)
    ensures
        ({
            let a = s.link.address;
            let key = s.on_event(hci::EventView::LinkKeyRequest { address: a });
            let capability = s.on_event(hci::EventView::IoCapabilityRequest { address: a });
            let confirmation = s.on_event(
                hci::EventView::UserConfirmationRequest { address: a, numeric },
            );
            let call = s.on_event(
                hci::EventView::ConnectionRequest { address: a, class_of_device: class, link_type },
            );
            &&& commands_among(key.steps) == match s.link.link_key {
                Some(k) => seq![(0x040Bu16, a + k)],
                None => seq![(0x040Cu16, a)],
            }
            &&& commands_among(capability.steps) == seq![
                (0x042Bu16, a + seq![0x03u8, 0x00, 0x00]),
            ]
            &&& commands_among(confirmation.steps) == seq![(0x042Cu16, a)]
            &&& commands_among(call.steps) == if s.connected {
                seq![]
            } else {
                seq![(0x0408u16, a), (0x0409u16, a + seq![0x01u8])]
            }
        }),
{
    let a = s.link.address;
    let key = s.on_event(hci::EventView::LinkKeyRequest { address: a });
    let capability = s.on_event(hci::EventView::IoCapabilityRequest { address: a });
    let confirmation = s.on_event(
        hci::EventView::UserConfirmationRequest { address: a, numeric },
    );
    let call = s.on_event(
        hci::EventView::ConnectionRequest { address: a, class_of_device: class, link_type },
    );
    among_few(key.steps);
    among_few(capability.steps);
    among_few(confirmation.steps);
    among_few(call.steps);
}

/// A pairing fails exactly where its device or its link reports a failure: of the page, of the
/// pairing proper, of the authentication, of the encryption, or that the link is gone. Then
/// nothing more is done.
pub proof fn a_pairing_fails_by_a_report(s: PagePairView, e: hci::EventView)
    ensures
        s.on_event(e).verdict is Failed <==> match e {
            hci::EventView::ConnectionComplete { status, address, .. } => address
                == s.link.address && status != 0,
            hci::EventView::SimplePairingComplete { status, address } => address
                == s.link.address && status != 0,
            hci::EventView::AuthenticationComplete { status, conn_handle } => s.connected
                && conn_handle == s.link.conn_handle && status != 0,
            hci::EventView::EncryptionChange { status, conn_handle, enabled } => s.connected
                && conn_handle == s.link.conn_handle && (status != 0 || enabled == 0),
            hci::EventView::DisconnectionComplete { conn_handle, .. } => s.connected
                && conn_handle == s.link.conn_handle,
            _ => false,
        },
        s.on_event(e).verdict is Failed ==> s.on_event(e).steps.len() == 0 && s.on_event(e).next == s,
{
}

/// Giving up closes a link that is up, for the reason that the user ended it; takes the radio
/// out of a page that goes on; and does nothing where there is neither.
pub proof fn giving_up_does_one_thing(s: PagePairView)
    ensures
        commands_among(s.closing_steps()) == if s.connected {
            seq![
                (
                    0x0406u16,
                    seq![
                        (s.link.conn_handle % 256) as u8,
                        (s.link.conn_handle / 256) as u8,
                        0x13u8,
                    ],
                ),
            ]
        } else if s.paging {
            seq![(0x0408u16, s.link.address)]
        } else {
            seq![]
        },
{
    among_few(s.closing_steps());
    assert(bytes::le16(s.link.conn_handle) + seq![0x13u8] =~= seq![
        (s.link.conn_handle % 256) as u8,
        (s.link.conn_handle / 256) as u8,
        0x13u8,
    ]);
}

} // verus!
