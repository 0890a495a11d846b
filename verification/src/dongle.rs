//! Which USB devices are Bluetooth dongles, what they are called, and how to talk to
//! one.
use vstd::multiset::Multiset;
use vstd::prelude::*;
use crate::error;
use crate::error::{Error, Result, UsbFault};
use crate::text;
use crate::text::{chars_of, push_hex4, push_text, string_of, trim};

verus! {

/// USB class of a wireless controller. A Bluetooth dongle announces itself by class,
/// not by vendor: every one that speaks the standard protocol reports this triple.
pub const CLASS_WIRELESS: u8 = 0xE0;

pub const SUBCLASS_RF: u8 = 0x01;

pub const PROTOCOL_BLUETOOTH: u8 = 0x01;

/// What a USB descriptor says a device or an interface is.
#[derive(Debug, Clone, Copy, PartialEq, Eq, Structural)]
pub struct UsbClass {
    pub class: u8,
    pub subclass: u8,
    pub protocol: u8,
}

/// The triple of a Bluetooth dongle.
pub open spec fn speaks_bluetooth(c: UsbClass) -> bool {
    c.class == CLASS_WIRELESS && c.subclass == SUBCLASS_RF && c.protocol == PROTOCOL_BLUETOOTH
}

/// Whether a device is a Bluetooth dongle: by its own class, or by that of any of its
/// interfaces. Composite dongles say nothing at device level.
pub open spec fn is_bluetooth_device(device: UsbClass, interfaces: Seq<UsbClass>) -> bool {
    speaks_bluetooth(device) || exists|i: int|
        0 <= i < interfaces.len() && speaks_bluetooth(#[trigger] interfaces[i])
}

/// Whether a descriptor is that of a Bluetooth dongle.
fn is_bluetooth_class(c: UsbClass) -> (r: bool)
    ensures
        r == speaks_bluetooth(c),
{
    c.class == CLASS_WIRELESS && c.subclass == SUBCLASS_RF && c.protocol == PROTOCOL_BLUETOOTH
}

/// Whether a device is a Bluetooth dongle.
pub fn is_bluetooth(device: UsbClass, interfaces: &[UsbClass]) -> (r: bool)
    ensures
        r == is_bluetooth_device(device, interfaces@),
{
    if is_bluetooth_class(device) {
        return true;
    }
    let mut i: usize = 0;
    while i < interfaces.len()
        invariant
            i <= interfaces@.len(),
            forall|j: int| 0 <= j < i ==> !speaks_bluetooth(#[trigger] interfaces@[j]),
        decreases interfaces@.len() - i,
    {
        if is_bluetooth_class(interfaces[i]) {
            assert(speaks_bluetooth(interfaces@[i as int]));
            return true;
        }
        i += 1;
    }
    false
}

/// A Bluetooth dongle that could be used.
#[derive(Debug, Clone, PartialEq, Eq)]
pub struct DongleInfo {
    pub vid: u16,
    pub pid: u16,
    /// USB bus and address, so two identical dongles can be told apart.
    pub bus: u8,
    pub address: u8,
    /// Whether it could be opened right now.
    pub available: bool,
    /// Whether this process is the one holding it. Only meaningful where it is not
    /// available, and the reason "in use" need not be a problem.
    pub ours: bool,
    /// USB manufacturer string, where it could be read: that takes opening the device.
    pub manufacturer: Option<String>,
    /// USB product string, with the same caveat.
    pub product: Option<String>,
}

/// A text that may be there.
pub open spec fn maybe_text(s: Option<String>) -> Option<Seq<char>> {
    match s {
        Some(s) => Some(s@),
        None => None,
    }
}

/// A [`DongleInfo`] with its texts as characters.
#[verifier::ext_equal]
pub struct DongleInfoView {
    pub vid: u16,
    pub pid: u16,
    pub bus: u8,
    pub address: u8,
    pub available: bool,
    pub ours: bool,
    pub manufacturer: Option<Seq<char>>,
    pub product: Option<Seq<char>>,
}

impl View for DongleInfo {
    type V = DongleInfoView;

    open spec fn view(&self) -> DongleInfoView {
        DongleInfoView {
            vid: self.vid,
            pid: self.pid,
            bus: self.bus,
            address: self.address,
            available: self.available,
            ours: self.ours,
            manufacturer: maybe_text(self.manufacturer),
            product: maybe_text(self.product),
        }
    }
}

/// The vendors that turn up on Bluetooth dongles, for when the strings of a device
/// cannot be read.
pub open spec fn vendor_text(vid: u16) -> Option<Seq<char>> {
    match vid {
        0x0A12 => Some("Cambridge Silicon Radio"@),
        0x0BDA => Some("Realtek"@),
        0x0CF3 => Some("Qualcomm Atheros / IMC"@),
        0x13D3 => Some("Qualcomm Atheros / IMC"@),
        0x8087 => Some("Intel"@),
        0x0489 => Some("Foxconn / MediaTek"@),
        0x0E8D => Some("MediaTek"@),
        0x1131 => Some("Integrated System Solution"@),
        0x0B05 => Some("ASUS"@),
        0x050D => Some("Belkin"@),
        0x0930 => Some("Toshiba"@),
        0x04CA => Some("Lite-On"@),
        _ => None,
    }
}

/// The vendor of an id, where it is one of those that are known.
pub fn vendor_name(vid: u16) -> (r: Option<&'static str>)
    ensures
        match r {
            Some(s) => vendor_text(vid) == Some(s@),
            None => vendor_text(vid) is None,
        },
{
    match vid {
        0x0A12 => Some("Cambridge Silicon Radio"),
        0x0BDA => Some("Realtek"),
        0x0CF3 => Some("Qualcomm Atheros / IMC"),
        0x13D3 => Some("Qualcomm Atheros / IMC"),
        0x8087 => Some("Intel"),
        0x0489 => Some("Foxconn / MediaTek"),
        0x0E8D => Some("MediaTek"),
        0x1131 => Some("Integrated System Solution"),
        0x0B05 => Some("ASUS"),
        0x050D => Some("Belkin"),
        0x0930 => Some("Toshiba"),
        0x04CA => Some("Lite-On"),
        _ => None,
    }
}

/// Two ids as text: four digits each, with a colon between.
pub open spec fn ids_text(vid: u16, pid: u16) -> Seq<char> {
    text::hex4(vid) + ":"@ + text::hex4(pid)
}

/// What a dongle calls itself, where its strings could be read.
pub open spec fn own_name(d: DongleInfoView) -> Option<Seq<char>> {
    match (d.manufacturer, d.product) {
        (Some(m), Some(p)) => Some(m + " "@ + p),
        (None, Some(p)) => Some(p),
        (Some(m), None) => Some(m + " adapter"@),
        (None, None) => None,
    }
}

/// What a dongle is called: by its own strings where they could be read and hold anything
/// to be seen, else by the vendor of its chip, else by its ids. Never nothing.
pub open spec fn description(d: DongleInfoView) -> Seq<char> {
    match own_name(d) {
        Some(n) if text::trimmed(n).len() > 0 => n,
        _ => match vendor_text(d.vid) {
            Some(v) => v + " adapter"@,
            None => "Bluetooth adapter "@ + ids_text(d.vid, d.pid),
        },
    }
}

/// Every dongle has a name to show.
pub proof fn a_dongle_is_never_nameless(d: DongleInfoView)
    ensures
        text::trimmed(description(d)).len() > 0,
{
    reveal_strlit(" adapter");
    reveal_strlit("Bluetooth adapter ");
    let s = description(d);
    match own_name(d) {
        Some(n) if text::trimmed(n).len() > 0 => {},
        _ => match vendor_text(d.vid) {
            Some(v) => {
                assert(s[v.len() as int + 1] == 'a');
                text::trimming_keeps(s, v.len() as int + 1);
            },
            None => {
                assert(s[0] == 'B');
                text::trimming_keeps(s, 0);
            },
        },
    }
}

impl DongleInfo {
    /// The ids in the form that a user types them.
    pub fn ids(&self) -> (s: String)
        ensures
            s@ == ids_text(self.vid, self.pid),
    {
        let mut s = String::new();
        push_hex4(&mut s, self.vid);
        push_text(&mut s, ":");
        push_hex4(&mut s, self.pid);
        assert(s@ =~= ids_text(self.vid, self.pid));
        s
    }

    /// What the dongle calls itself.
    fn name(&self) -> (r: Option<String>)
        ensures
            maybe_text(r) == own_name(self@),
    {
        let mut s = String::new();
        match &self.manufacturer {
            Some(m) => {
                push_text(&mut s, m.as_str());
                match &self.product {
                    Some(p) => {
                        push_text(&mut s, " ");
                        push_text(&mut s, p.as_str());
                        assert(s@ =~= m@ + " "@ + p@);
                    },
                    None => {
                        push_text(&mut s, " adapter");
                        assert(s@ =~= m@ + " adapter"@);
                    },
                }
                Some(s)
            },
            None => match &self.product {
                Some(p) => {
                    push_text(&mut s, p.as_str());
                    assert(s@ =~= p@);
                    Some(s)
                },
                None => None,
            },
        }
    }

    /// The best name available.
    pub fn describe(&self) -> (s: String)
        ensures
            s@ == description(self@),
            text::trimmed(s@).len() > 0,
    {
        proof {
            a_dongle_is_never_nameless(self@);
        }
        if let Some(n) = self.name() {
            let chars = chars_of(n.as_str());
            if trim(chars.as_slice()).len() > 0 {
                return n;
            }
        }
        let mut s = String::new();
        match vendor_name(self.vid) {
            Some(v) => {
                push_text(&mut s, v);
                push_text(&mut s, " adapter");
            },
            None => {
                push_text(&mut s, "Bluetooth adapter ");
                let ids = self.ids();
                push_text(&mut s, ids.as_str());
            },
        }
        assert(s@ =~= description(self@));
        s
    }
}

/// The dongles that this process holds open, by their ids, once for each time that one
/// was opened.
#[derive(Debug)]
pub struct Registry {
    open: Vec<(u16, u16)>,
}

impl View for Registry {
    type V = Multiset<(u16, u16)>;

    closed spec fn view(&self) -> Multiset<(u16, u16)> {
        self.open@.to_multiset()
    }
}

impl Registry {
    /// Nothing is open.
    pub fn new() -> (r: Registry)
        ensures
            r@ == Multiset::<(u16, u16)>::empty(),
    {
        broadcast use vstd::seq_lib::group_to_multiset_ensures;

        let r = Registry { open: Vec::new() };
        assert(r@ =~= Multiset::<(u16, u16)>::empty());
        r
    }

    /// The place of the ids, where they are held open.
    fn find(&self, vid: u16, pid: u16) -> (r: Option<usize>)
        ensures
            match r {
                Some(i) => i < self.open@.len() && self.open@[i as int] == (vid, pid),
                None => !self.open@.contains((vid, pid)),
            },
    {
        let mut i: usize = 0;
        while i < self.open.len()
            invariant
                i <= self.open@.len(),
                forall|j: int| 0 <= j < i ==> self.open@[j] != (vid, pid),
            decreases self.open@.len() - i,
        {
            let (v, p) = self.open[i];
            if v == vid && p == pid {
                return Some(i);
            }
            i += 1;
        }
        None
    }

    /// A dongle was opened and claimed.
    pub fn register(&mut self, vid: u16, pid: u16)
        ensures
            final(self)@ == old(self)@.insert((vid, pid)),
    {
        broadcast use vstd::seq_lib::group_to_multiset_ensures;

        self.open.push((vid, pid));
    }

    /// A dongle is let go. One that is not held is not an error.
    pub fn release(&mut self, vid: u16, pid: u16)
        ensures
            final(self)@ == old(self)@.remove((vid, pid)),
    {
        broadcast use vstd::seq_lib::group_to_multiset_ensures;

        let ghost before = self.open@;
        match self.find(vid, pid) {
            Some(i) => {
                let _ = self.open.remove(i);
                assert(self@ =~= before.to_multiset().remove((vid, pid)));
            },
            None => {
                assert(before.to_multiset().count((vid, pid)) == 0);
                assert(self@ =~= before.to_multiset().remove((vid, pid)));
            },
        }
    }
}

/// Whether this process holds a dongle open right now. Only the process itself can know
/// that: to the USB layer, "taken by us" and "taken by someone else" look the same.
pub fn is_ours(open: &Registry, vid: u16, pid: u16) -> (r: bool)
    ensures
        r == (open@.count((vid, pid)) > 0),
{
    broadcast use vstd::seq_lib::group_to_multiset_ensures;

    match open.find(vid, pid) {
        Some(_) => true,
        None => false,
    }
}

/// Enter a dongle as ours once it was opened for good: where its endpoints were not
/// found, opening it failed, and nothing is entered.
pub fn opened(open: &mut Registry, vid: u16, pid: u16, found: Result<Endpoints>) -> (r: Result<
    Endpoints,
>)
    ensures
        r == found,
        found is Ok ==> final(open)@ == old(open)@.insert((vid, pid)),
        found is Err ==> final(open)@ == old(open)@,
{
    if found.is_ok() {
        open.register(vid, pid);
    }
    found
}

/// A dongle is ours from when it was opened until it was let go as often.
pub proof fn a_dongle_is_ours_until_released(open: Multiset<(u16, u16)>, id: (u16, u16))
    ensures
        open.insert(id).count(id) > 0,
        open.insert(id).remove(id) == open,
{
    assert(open.insert(id).remove(id) =~= open);
}

/// What came of opening a device.
#[derive(Debug, Clone, Copy, PartialEq, Eq, Structural)]
pub enum OpenAttempt {
    Opened,
    /// Something already holds it.
    Held,
    /// Any other refusal: it has no driver that this stack could use, or is gone.
    Refused,
}

/// What it means that opening a device succeeded, or failed by `fault`.
pub open spec fn attempt_of(fault: Option<UsbFault>) -> OpenAttempt {
    match fault {
        None => OpenAttempt::Opened,
        Some(UsbFault::Access) | Some(UsbFault::Busy) => OpenAttempt::Held,
        Some(_) => OpenAttempt::Refused,
    }
}

/// What it means that opening a device succeeded, or failed by `fault`.
pub fn open_attempt(fault: Option<UsbFault>) -> (a: OpenAttempt)
    ensures
        a == attempt_of(fault),
{
    match fault {
        None => OpenAttempt::Opened,
        Some(UsbFault::Access) | Some(UsbFault::Busy) => OpenAttempt::Held,
        Some(_) => OpenAttempt::Refused,
    }
}

/// A USB device as it was found.
#[derive(Debug)]
pub struct Candidate {
    pub vid: u16,
    pub pid: u16,
    pub bus: u8,
    pub address: u8,
    pub class: UsbClass,
    pub interfaces: Vec<UsbClass>,
    pub attempt: OpenAttempt,
    pub manufacturer: Option<String>,
    pub product: Option<String>,
}

/// A string of a device as it is shown: without the white space around it, and not at
/// all where nothing is left.
pub open spec fn tidied(s: Option<Seq<char>>) -> Option<Seq<char>> {
    match s {
        Some(s) => if text::trimmed(s).len() == 0 {
            None
        } else {
            Some(text::trimmed(s))
        },
        None => None,
    }
}

/// Make a string of a device fit to be shown.
fn tidy(s: &Option<String>) -> (r: Option<String>)
    ensures
        maybe_text(r) == tidied(maybe_text(*s)),
{
    match s {
        Some(s) => {
            let chars = chars_of(s.as_str());
            let t = trim(chars.as_slice());
            if t.len() == 0 {
                None
            } else {
                Some(string_of(t))
            }
        },
        None => None,
    }
}

/// The entry of a device in the list of dongles, where it belongs there: it is a
/// Bluetooth dongle, and it opened or something already holds it. Every other refusal
/// means that it can never be used, and listing it would only invite the question of
/// why it does not work.
pub open spec fn listed_as(c: Candidate, open: Multiset<(u16, u16)>) -> Option<DongleInfoView> {
    if !is_bluetooth_device(c.class, c.interfaces@) || c.attempt == OpenAttempt::Refused {
        None
    } else {
        let opened = c.attempt == OpenAttempt::Opened;
        Some(
            DongleInfoView {
                vid: c.vid,
                pid: c.pid,
                bus: c.bus,
                address: c.address,
                available: opened,
                ours: open.count((c.vid, c.pid)) > 0,
                manufacturer: if opened {
                    tidied(maybe_text(c.manufacturer))
                } else {
                    None
                },
                product: if opened {
                    tidied(maybe_text(c.product))
                } else {
                    None
                },
            },
        )
    }
}

/// The entry of a device in the list of dongles.
pub fn list_candidate(c: &Candidate, open: &Registry) -> (r: Option<DongleInfo>)
    ensures
        match r {
            Some(d) => listed_as(*c, open@) == Some(d@),
            None => listed_as(*c, open@) is None,
        },
{
    if !is_bluetooth(c.class, c.interfaces.as_slice()) {
        return None;
    }
    let opened: bool = match c.attempt {
        OpenAttempt::Opened => true,
        OpenAttempt::Held => false,
        OpenAttempt::Refused => {
            return None;
        },
    };
    Some(
        DongleInfo {
            vid: c.vid,
            pid: c.pid,
            bus: c.bus,
            address: c.address,
            available: opened,
            ours: is_ours(open, c.vid, c.pid),
            manufacturer: if opened {
                tidy(&c.manufacturer)
            } else {
                None
            },
            product: if opened {
                tidy(&c.product)
            } else {
                None
            },
        },
    )
}

/// The entries of the candidates that belong in the list, in order.
pub open spec fn listing_of(all: Seq<Candidate>, open: Multiset<(u16, u16)>) -> Seq<DongleInfoView>
    decreases all.len(),
{
    if all.len() == 0 {
        seq![]
    } else {
        let rest = listing_of(all.drop_last(), open);
        match listed_as(all.last(), open) {
            Some(d) => rest.push(d),
            None => rest,
        }
    }
}

/// The dongles of `all`, each by its view.
pub open spec fn info_views(all: Seq<DongleInfo>) -> Seq<DongleInfoView> {
    all.map_values(|d: DongleInfo| d@)
}

/// Every dongle among the devices that could be used, now or once whoever holds it lets
/// go.
pub fn discover(devices: &[Candidate], open: &Registry) -> (v: Vec<DongleInfo>)
    ensures
        info_views(v@) == listing_of(devices@, open@),
{
    let mut v: Vec<DongleInfo> = Vec::new();
    let mut i: usize = 0;
    assert(devices@.take(0) =~= seq![]);
    assert(info_views(v@) =~= listing_of(devices@.take(0), open@));
    while i < devices.len()
        invariant
            i <= devices@.len(),
            info_views(v@) == listing_of(devices@.take(i as int), open@),
        decreases devices@.len() - i,
    {
        let ghost before = info_views(v@);
        assert(devices@.take(i + 1).drop_last() =~= devices@.take(i as int));
        if let Some(d) = list_candidate(&devices[i], open) {
            let ghost dv = d@;
            v.push(d);
            assert(info_views(v@) =~= before.push(dv));
        }
        i += 1;
    }
    assert(devices@.take(i as int) =~= devices@);
    v
}

/// The place of the first device with the ids, or how many there are.
pub open spec fn ids_place(devices: Seq<(u16, u16)>, vid: u16, pid: u16) -> nat
    decreases devices.len(),
{
    if devices.len() == 0 || devices[0] == (vid, pid) {
        0
    } else {
        1 + ids_place(devices.skip(1), vid, pid)
    }
}

/// The device to open: the first with the ids. That there is none and that one could
/// not be opened are different problems with different remedies, and stay apart.
pub fn open_by_ids(devices: &[(u16, u16)], vid: u16, pid: u16) -> (r: Result<usize>)
    ensures
        match r {
            Ok(i) => i < devices@.len() && i == ids_place(devices@, vid, pid) && devices@[i as int]
                == (vid, pid),
            Err(e) => ids_place(devices@, vid, pid) == devices@.len() && e@
                == (error::ErrorView::NotFound { vid, pid }),
        },
{
    let mut i: usize = 0;
    assert(devices@.skip(0) =~= devices@);
    while i < devices.len()
        invariant
            i <= devices@.len(),
            ids_place(devices@, vid, pid) == i + ids_place(devices@.skip(i as int), vid, pid),
        decreases devices@.len() - i,
    {
        let (v, p) = devices[i];
        if v == vid && p == pid {
            return Ok(i);
        }
        assert(devices@.skip(i as int).skip(1) =~= devices@.skip(i + 1));
        i += 1;
    }
    Err(Error::NotFound { vid, pid })
}

/// How an endpoint moves data.
#[derive(Debug, Clone, Copy, PartialEq, Eq, Structural)]
pub enum TransferKind {
    Control,
    Isochronous,
    Bulk,
    Interrupt,
}

/// One endpoint of an interface.
#[derive(Debug, Clone, Copy, PartialEq, Eq, Structural)]
pub struct Endpoint {
    /// The interface that it belongs to.
    pub interface: u8,
    pub kind: TransferKind,
    /// Whether data comes in through it.
    pub incoming: bool,
    pub address: u8,
}

/// The endpoints that a dongle is spoken to through.
#[derive(Debug, Clone, Copy, PartialEq, Eq, Structural)]
pub struct Endpoints {
    /// Events come in.
    pub event: u8,
    /// Packets come in.
    pub acl_in: u8,
    /// Packets go out.
    pub acl_out: u8,
}

/// The address of the first endpoint of a kind on an interface.
pub open spec fn first_endpoint(
    all: Seq<Endpoint>,
    interface: u8,
    kind: TransferKind,
    incoming: bool,
) -> Option<u8>
    decreases all.len(),
{
    if all.len() == 0 {
        None
    } else if all[0].interface == interface && all[0].kind == kind && all[0].incoming == incoming {
        Some(all[0].address)
    } else {
        first_endpoint(all.skip(1), interface, kind, incoming)
    }
}

/// Find the first endpoint of a kind on an interface.
fn find_endpoint(all: &[Endpoint], interface: u8, kind: TransferKind, incoming: bool) -> (r: Option<
    u8,
>)
    ensures
        r == first_endpoint(all@, interface, kind, incoming),
{
    let mut i: usize = 0;
    assert(all@.skip(0) =~= all@);
    while i < all.len()
        invariant
            i <= all@.len(),
            first_endpoint(all@, interface, kind, incoming) == first_endpoint(
                all@.skip(i as int),
                interface,
                kind,
                incoming,
            ),
        decreases all@.len() - i,
    {
        let e = all[i];
        if e.interface == interface && e.kind == kind && e.incoming == incoming {
            return Some(e.address);
        }
        assert(all@.skip(i as int).skip(1) =~= all@.skip(i + 1));
        i += 1;
    }
    None
}

/// The endpoints that the transport needs, or the first that is missing.
pub open spec fn endpoints_of(all: Seq<Endpoint>, interface: u8) -> core::result::Result<
    Endpoints,
    Seq<char>,
> {
    let event = first_endpoint(all, interface, TransferKind::Interrupt, true);
    let acl_in = first_endpoint(all, interface, TransferKind::Bulk, true);
    let acl_out = first_endpoint(all, interface, TransferKind::Bulk, false);
    match (event, acl_in, acl_out) {
        (Some(event), Some(acl_in), Some(acl_out)) => Ok(Endpoints { event, acl_in, acl_out }),
        (None, _, _) => Err("interrupt IN"@),
        (_, None, _) => Err("bulk IN"@),
        _ => Err("bulk OUT"@),
    }
}

/// Locate the endpoints that the transport needs, out of what the dongle says it has.
/// They are not taken for granted: a wrong address would look like a dongle that does
/// not answer.
pub fn find_endpoints(all: &[Endpoint], interface: u8) -> (r: Result<Endpoints>)
    ensures
        match r {
            Ok(e) => endpoints_of(all@, interface) == Ok::<Endpoints, Seq<char>>(e),
            Err(e) => endpoints_of(all@, interface) matches Err(what) && e@
                == error::ErrorView::NoEndpoint(what),
        },
{
    let event: u8 = match find_endpoint(all, interface, TransferKind::Interrupt, true) {
        Some(a) => a,
        None => {
            return Err(Error::NoEndpoint("interrupt IN".to_owned()));
        },
    };
    let acl_in: u8 = match find_endpoint(all, interface, TransferKind::Bulk, true) {
        Some(a) => a,
        None => {
            return Err(Error::NoEndpoint("bulk IN".to_owned()));
        },
    };
    let acl_out: u8 = match find_endpoint(all, interface, TransferKind::Bulk, false) {
        Some(a) => a,
        None => {
            return Err(Error::NoEndpoint("bulk OUT".to_owned()));
        },
    };
    Ok(Endpoints { event, acl_in, acl_out })
}

/// What to do with a device that was told to reset.
#[derive(Debug, Clone, Copy, PartialEq, Eq, Structural)]
pub enum AfterReset {
    /// Go on with it, reset or not.
    Keep,
    /// It went away and has to be opened again.
    Reopen,
}

/// What to do once resetting a device succeeded, or failed by `fault`.
pub open spec fn once_reset(fault: Option<UsbFault>) -> AfterReset {
    if fault == Some(UsbFault::NotFound) {
        AfterReset::Reopen
    } else {
        AfterReset::Keep
    }
}

/// What to do once resetting a device succeeded, or failed by `fault`. A dongle is reset
/// before it is claimed, because a link lives in its firmware: a controller that still
/// believes it is connected does not advertise.
pub fn after_reset(fault: Option<UsbFault>) -> (a: AfterReset)
    ensures
        a == once_reset(fault),
{
    match fault {
        Some(UsbFault::NotFound) => AfterReset::Reopen,
        _ => AfterReset::Keep,
    }
}

/// What came of waiting for a transfer.
pub open spec fn transferred(r: core::result::Result<usize, UsbFault>) -> core::result::Result<
    Option<usize>,
    UsbFault,
> {
    match r {
        Ok(n) => Ok(Some(n)),
        Err(UsbFault::Timeout) => Ok(None),
        Err(f) => Err(f),
    }
}

/// What came of waiting for a transfer: its length, nothing in the time that it was waited
/// for, or an error.
pub fn transfer_outcome(r: core::result::Result<usize, UsbFault>) -> (t: Result<Option<usize>>)
    ensures
        match transferred(r) {
            Ok(n) => t == Ok::<Option<usize>, Error>(n),
            Err(f) => t == Err::<Option<usize>, Error>(Error::Usb(f)),
        },
{
    match r {
        Ok(n) => Ok(Some(n)),
        Err(UsbFault::Timeout) => Ok(None),
        Err(f) => Err(Error::Usb(f)),
    }
}

/// The setup of a control transfer.
#[derive(Debug, Clone, Copy, PartialEq, Eq, Structural)]
pub struct ControlSetup {
    pub request_type: u8,
    pub request: u8,
    pub value: u16,
    pub index: u16,
}

/// `rusb::request_type` of an outbound class request to an interface: the bits of the
/// three, none for the direction, `0x20` for the class and `0x01` for the recipient.
#[verifier::external_body]
fn class_request() -> (r: u8)
    ensures
        r == 0x21,
{
    rusb::request_type(
        rusb::Direction::Out,
        rusb::RequestType::Class,
        rusb::Recipient::Interface,
    )
}

/// How a command goes to a dongle.
pub open spec fn setup_of(interface: u8) -> ControlSetup {
    ControlSetup { request_type: 0x21, request: 0, value: 0, index: interface as u16 }
}

/// How a command goes to a dongle: as a class request to the interface that it is spoken
/// to through.
pub fn command_setup(interface: u8) -> (s: ControlSetup)
    ensures
        s == setup_of(interface),
{
    ControlSetup { request_type: class_request(), request: 0x00, value: 0, index: interface as u16 }
}

/// A Bluetooth dongle is told by its own class or by that of any one interface, wherever it
/// stands; one field that differs makes it something else.
pub proof fn a_dongle_is_told_by_any_descriptor(
    device: UsbClass,
    before: Seq<UsbClass>,
    one: UsbClass,
    after: Seq<UsbClass>,
)
    ensures
        speaks_bluetooth(one) <==> one.class == 0xE0 && one.subclass == 1 && one.protocol == 1,
        speaks_bluetooth(device) ==> is_bluetooth_device(device, before),
        speaks_bluetooth(one) ==> is_bluetooth_device(device, before + seq![one] + after),
        !speaks_bluetooth(device) && !speaks_bluetooth(one) ==> (is_bluetooth_device(
            device,
            before + seq![one] + after,
        ) <==> is_bluetooth_device(device, before + after)),
{
    let all = before + seq![one] + after;
    let rest = before + after;
    let n = before.len() as int;
    assert(all[n] == one);
    if !speaks_bluetooth(device) && !speaks_bluetooth(one) {
        if is_bluetooth_device(device, all) {
            let i = choose|i: int| 0 <= i < all.len() && speaks_bluetooth(#[trigger] all[i]);
            let k = if i < n {
                i
            } else {
                i - 1
            };
            assert(rest[k] == all[i]);
        }
        if is_bluetooth_device(device, rest) {
            let i = choose|i: int| 0 <= i < rest.len() && speaks_bluetooth(#[trigger] rest[i]);
            let k = if i < n {
                i
            } else {
                i + 1
            };
            assert(all[k] == rest[i]);
        }
    }
}

/// A dongle that says who made it and what it is is called by both, the one before the other;
/// one that says nothing is called by its vendor or by its ids.
pub proof fn a_dongle_is_called_by_its_own_strings(d: DongleInfoView)
    ensures
        ({
            let s = description(d);
            let seen = |t: Option<Seq<char>>|
                t is Some && text::trimmed(t->0).len() > 0;
            &&& d.manufacturer is Some && d.product is Some && text::trimmed(s).len() > 0 && (seen(
                d.manufacturer,
            ) || seen(d.product)) ==> s == d.manufacturer->0 + seq![' '] + d.product->0
            &&& d.manufacturer is None && seen(d.product) ==> s == d.product->0
            &&& d.manufacturer is None && d.product is None && vendor_text(d.vid) is None
                ==> s.len() == 27 && s.subrange(18, 27) == ids_text(d.vid, d.pid)
        }),
{
    reveal_strlit(" ");
    reveal_strlit(":");
    reveal_strlit("Bluetooth adapter ");
    let s = description(d);
    if d.manufacturer is Some && d.product is Some {
        let m = d.manufacturer->0;
        let p = d.product->0;
        let both = m + " "@ + p;
        if text::trimmed(m).len() > 0 {
            let (a, b) = text::trimmed_bounds(m);
            assert(both[a] == m[a]);
            text::trimming_keeps(both, a);
        }
        if text::trimmed(p).len() > 0 {
            let (a, b) = text::trimmed_bounds(p);
            assert(both[m.len() + 1 + a] == p[a]);
            text::trimming_keeps(both, m.len() + 1 + a);
        }
        assert(" "@ =~= seq![' ']);
    }
    if d.manufacturer is None && d.product is None && vendor_text(d.vid) is None {
        assert(s.subrange(18, 27) =~= ids_text(d.vid, d.pid));
    }
}

/// Two ids are written with four digits each and a colon between, and are told apart by it.
pub proof fn ids_are_told_apart(vid: u16, pid: u16)
    ensures
        ids_text(vid, pid).len() == 9,
        ids_text(vid, pid)[4] == ':',
        text::hex_number(ids_text(vid, pid).take(4)) == Some(vid as nat),
        text::hex_number(ids_text(vid, pid).skip(5)) == Some(pid as nat),
{
    reveal_strlit(":");
    text::four_digits_read_back(vid);
    text::four_digits_read_back(pid);
    assert(ids_text(vid, pid).take(4) =~= text::hex4(vid));
    assert(ids_text(vid, pid).skip(5) =~= text::hex4(pid));
}

/// A device is listed exactly where it is a Bluetooth dongle that opened or that something
/// holds; it is available exactly where it opened, ours exactly where this process holds it,
/// and its strings are known only where it opened.
pub proof fn a_usable_dongle_is_listed(c: Candidate, open: Multiset<(u16, u16)>)
    ensures
        listed_as(c, open) is Some <==> is_bluetooth_device(c.class, c.interfaces@) && c.attempt
            != OpenAttempt::Refused,
        listed_as(c, open) matches Some(d) ==> {
            &&& d.vid == c.vid && d.pid == c.pid && d.bus == c.bus && d.address == c.address
            &&& d.available <==> c.attempt == OpenAttempt::Opened
            &&& d.ours <==> open.count((c.vid, c.pid)) > 0
            &&& !d.available ==> d.manufacturer is None && d.product is None
            &&& d.available ==> d.manufacturer == tidied(maybe_text(c.manufacturer)) && d.product
                == tidied(maybe_text(c.product))
        },
{
}

/// A string is shown without the white space around it, and not at all where there is nothing
/// else to it.
pub proof fn a_blank_string_is_not_shown(s: Seq<char>, i: int)
    ensures
        tidied(None) is None,
        0 <= i < s.len() && !text::is_white(s[i]) ==> tidied(Some(s)) == Some(text::trimmed(s)),
        (forall|j: int| 0 <= j < s.len() ==> text::is_white(#[trigger] s[j])) ==> tidied(Some(s)) is None,
{
    if 0 <= i < s.len() && !text::is_white(s[i]) {
        text::trimming_keeps(s, i);
    }
    let (a, b) = text::trimmed_bounds(s);
}

/// The list keeps the order of the devices: of two lots together it is that of the one and
/// then of the other.
pub proof fn the_list_keeps_its_order(a: Seq<Candidate>, b: Seq<Candidate>, open: Multiset<(u16, u16)>)
    ensures
        listing_of(a + b, open) == listing_of(a, open) + listing_of(b, open),
        b.len() == 1 ==> listing_of(b, open) == match listed_as(b[0], open) {
            Some(d) => seq![d],
            None => seq![],
        },
        b.len() == 0 ==> listing_of(b, open) == Seq::<DongleInfoView>::empty(),
    decreases b.len(),
{
    if b.len() == 0 {
        assert(a + b =~= a);
        assert(listing_of(a, open) + listing_of(b, open) =~= listing_of(a, open));
    } else {
        the_list_keeps_its_order(a, b.drop_last(), open);
        assert((a + b).drop_last() =~= a + b.drop_last());
        assert((a + b).last() == b.last());
        assert(listing_of(a + b, open) =~= listing_of(a, open) + listing_of(b, open));
        if b.len() == 1 {
            assert(b.drop_last() =~= seq![]);
            assert(listing_of(b, open) =~= match listed_as(b[0], open) {
                Some(d) => seq![d],
                None => seq![],
            });
        }
    }
}

/// The device to open is the first with the ids.
pub proof fn the_first_with_the_ids_is_opened(devices: Seq<(u16, u16)>, vid: u16, pid: u16)
    ensures
        ids_place(devices, vid, pid) <= devices.len(),
        ids_place(devices, vid, pid) == devices.len() <==> !devices.contains((vid, pid)),
        ids_place(devices, vid, pid) < devices.len() ==> devices[ids_place(
            devices,
            vid,
            pid,
        ) as int] == (vid, pid),
        forall|i: int|
            0 <= i < ids_place(devices, vid, pid) ==> #[trigger] devices[i] != (vid, pid),
    decreases devices.len(),
{
    if devices.len() > 0 && devices[0] != (vid, pid) {
        let rest = devices.skip(1);
        the_first_with_the_ids_is_opened(rest, vid, pid);
        let k = ids_place(rest, vid, pid) as int;
        assert forall|i: int| 0 <= i < k + 1 implies #[trigger] devices[i] != (vid, pid) by {
            if i > 0 {
                assert(rest[i - 1] == devices[i]);
            }
        }
        if k == rest.len() {
            assert(!devices.contains((vid, pid)));
        } else {
            assert(devices[k + 1] == rest[k]);
        }
    }
}

/// Whether an endpoint is the one that is looked for.
pub open spec fn serves(e: Endpoint, interface: u8, kind: TransferKind, incoming: bool) -> bool {
    e.interface == interface && e.kind == kind && e.incoming == incoming
}

/// An endpoint is found by its interface, its kind and its direction together, and it is the
/// first with all three.
pub proof fn the_first_that_serves_is_found(
    all: Seq<Endpoint>,
    interface: u8,
    kind: TransferKind,
    incoming: bool,
)
    ensures
        first_endpoint(all, interface, kind, incoming) is None <==> forall|i: int|
            0 <= i < all.len() ==> !serves(#[trigger] all[i], interface, kind, incoming),
        forall|i: int|
            0 <= i < all.len() && serves(#[trigger] all[i], interface, kind, incoming) && (forall|
                j: int,
            |
                0 <= j < i ==> !serves(#[trigger] all[j], interface, kind, incoming))
                ==> first_endpoint(all, interface, kind, incoming) == Some(all[i].address),
    decreases all.len(),
{
    if all.len() > 0 {
        let rest = all.skip(1);
        the_first_that_serves_is_found(rest, interface, kind, incoming);
        assert(forall|i: int| 0 <= i < rest.len() ==> rest[i] == #[trigger] all[i + 1]);
        let found = first_endpoint(all, interface, kind, incoming);
        if serves(all[0], interface, kind, incoming) {
        } else {
            if found is None {
                assert forall|i: int| 0 <= i < all.len() implies !serves(
                    #[trigger] all[i],
                    interface,
                    kind,
                    incoming,
                ) by {
                    if i > 0 {
                        assert(rest[i - 1] == all[i]);
                    }
                }
            }
            if forall|i: int|
                0 <= i < all.len() ==> !serves(#[trigger] all[i], interface, kind, incoming) {
                assert forall|i: int| 0 <= i < rest.len() implies !serves(
                    #[trigger] rest[i],
                    interface,
                    kind,
                    incoming,
                ) by {
                    assert(rest[i] == all[i + 1]);
                }
            }
            assert forall|i: int|
                0 <= i < all.len() && serves(#[trigger] all[i], interface, kind, incoming) && (
                forall|j: int|
                    0 <= j < i ==> !serves(#[trigger] all[j], interface, kind, incoming)) implies found
                == Some(all[i].address) by {
                assert(i > 0);
                assert(rest[i - 1] == all[i]);
                assert forall|j: int| 0 <= j < i - 1 implies !serves(
                    #[trigger] rest[j],
                    interface,
                    kind,
                    incoming,
                ) by {
                    assert(rest[j] == all[j + 1]);
                }
            }
        }
    }
}

/// Of the faults of opening a device, only that it is held by someone leaves hope; of those of
/// resetting it, only that it is gone makes it be opened again; and of those of a transfer,
/// only that time ran out is no failure.
pub proof fn faults_are_told_apart(f: UsbFault, n: usize, interface: u8)
    ensures
        attempt_of(None) == OpenAttempt::Opened,
        attempt_of(Some(f)) == OpenAttempt::Held <==> f == UsbFault::Access || f == UsbFault::Busy,
        attempt_of(Some(f)) != OpenAttempt::Opened,
        once_reset(None) == AfterReset::Keep,
        once_reset(Some(f)) == AfterReset::Reopen <==> f == UsbFault::NotFound,
        transferred(Ok(n)) == Ok::<Option<usize>, UsbFault>(Some(n)),
        transferred(Err(f)) == Ok::<Option<usize>, UsbFault>(None) <==> f == UsbFault::Timeout,
        f != UsbFault::Timeout ==> transferred(Err(f)) == Err::<Option<usize>, UsbFault>(f),
        setup_of(interface).index == interface,
        setup_of(interface).request_type == 0x00 + 0x20 + 0x01,
        setup_of(interface).request == 0 && setup_of(interface).value == 0,
{
}

/// Whether an endpoint is of an interface, of a kind and of a direction.
pub open spec fn fits(e: Endpoint, interface: u8, kind: TransferKind, incoming: bool) -> bool {
    e.interface == interface && e.kind == kind && e.incoming == incoming
}

/// The endpoint of a kind is the first that fits, wherever it stands, and there is none only
/// where none fits.
pub proof fn the_first_endpoint_is_used(
    all: Seq<Endpoint>,
    interface: u8,
    kind: TransferKind,
    incoming: bool,
) -> (i: int)
    ensures
        0 <= i <= all.len(),
        forall|j: int| 0 <= j < i ==> !fits(#[trigger] all[j], interface, kind, incoming),
        i < all.len() ==> fits(all[i], interface, kind, incoming) && first_endpoint(
            all,
            interface,
            kind,
            incoming,
        ) == Some(all[i].address),
        i == all.len() ==> first_endpoint(all, interface, kind, incoming) is None,
    decreases all.len(),
{
    if all.len() == 0 || fits(all[0], interface, kind, incoming) {
        0
    } else {
        let rest = all.skip(1);
        let i = the_first_endpoint_is_used(rest, interface, kind, incoming);
        assert forall|j: int| 0 <= j < i + 1 implies !fits(
            #[trigger] all[j],
            interface,
            kind,
            incoming,
        ) by {
            if j > 0 {
                assert(rest[j - 1] == all[j]);
            }
        }
        i + 1
    }
}

/// A dongle serves where it has one endpoint through which events come in, one through which
/// packets come in and one through which they go out; and of what is missing, the first of
/// these is named.
pub proof fn a_missing_endpoint_is_named(all: Seq<Endpoint>, interface: u8)
    ensures
        ({
            let event = first_endpoint(all, interface, TransferKind::Interrupt, true);
            let coming = first_endpoint(all, interface, TransferKind::Bulk, true);
            let going = first_endpoint(all, interface, TransferKind::Bulk, false);
            let found = endpoints_of(all, interface);
            &&& found is Ok <==> event is Some && coming is Some && going is Some
            &&& found matches Ok(e) ==> Some(e.event) == event && Some(e.acl_in) == coming && Some(
                e.acl_out,
            ) == going
            &&& event is None ==> found == Err::<Endpoints, Seq<char>>("interrupt IN"@)
            &&& event is Some && coming is None ==> found == Err::<Endpoints, Seq<char>>(
                "bulk IN"@,
            )
            &&& event is Some && coming is Some && going is None ==> found == Err::<
                Endpoints,
                Seq<char>,
            >("bulk OUT"@)
        }),
{
}

} // verus!
