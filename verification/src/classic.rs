//! What answered an inquiry, and the reports of a classic controller.
use vstd::prelude::*;
use crate::acl;
use crate::acl::AclPacket;
use crate::bytes::same;
use crate::commands::same_address;
use crate::hci;
use crate::hci::InquiryResult;
use crate::l2cap;
use crate::l2cap::{parse_signal, CID_SIGNALLING, SIG_DISCONNECTION_REQUEST};

verus! {

/// What a major device class is called.
pub open spec fn major_class_text(major: u8) -> Seq<char> {
    match major {
        0x00 => "Miscellaneous"@,
        0x01 => "Computer"@,
        0x02 => "Phone"@,
        0x03 => "Network AP"@,
        0x04 => "Audio/Video"@,
        0x05 => "Peripheral"@,
        0x06 => "Imaging"@,
        0x07 => "Wearable"@,
        0x08 => "Toy"@,
        0x09 => "Health"@,
        _ => "Uncategorised"@,
    }
}

/// What a major device class is called.
pub fn major_class_name(major: u8) -> (s: &'static str)
    ensures
        s@ == major_class_text(major),
{
    match major {
        0x00 => "Miscellaneous",
        0x01 => "Computer",
        0x02 => "Phone",
        0x03 => "Network AP",
        0x04 => "Audio/Video",
        0x05 => "Peripheral",
        0x06 => "Imaging",
        0x07 => "Wearable",
        0x08 => "Toy",
        0x09 => "Health",
        _ => "Uncategorised",
    }
}

/// What kind of peripheral a device is, by its minor class.
pub open spec fn peripheral_text(minor: u8) -> Seq<char> {
    match minor {
        0x01 => "joystick"@,
        0x02 => "gamepad"@,
        0x03 => "remote control"@,
        0x04 => "sensing device"@,
        0x05 => "digitiser tablet"@,
        0x06 => "card reader"@,
        _ => "other"@,
    }
}

/// What kind of peripheral a device is, by its Class of Device.
pub fn peripheral_kind(cod: [u8; 3]) -> (s: &'static str)
    ensures
        s@ == peripheral_text(hci::minor_class_of(cod@)),
{
    let minor: u8 = (cod[0] / 4) % 16;
    match minor {
        0x01 => "joystick",
        0x02 => "gamepad",
        0x03 => "remote control",
        0x04 => "sensing device",
        0x05 => "digitiser tablet",
        0x06 => "card reader",
        _ => "other",
    }
}

/// One device that answered, however often it did.
#[derive(Debug, Clone, Copy, PartialEq, Eq)]
pub struct Row {
    pub address: [u8; 6],
    /// How often it answered.
    pub hits: usize,
    /// The strongest signal it was heard with, where the first answer had one.
    pub rssi: Option<i8>,
    pub class_of_device: [u8; 3],
    pub page_scan_repetition_mode: u8,
    pub clock_offset: u16,
}

/// The place of a device among rows, or how many there are.
pub open spec fn row_place(rows: Seq<Row>, address: Seq<u8>) -> nat
    decreases rows.len(),
{
    if rows.len() == 0 || rows[0].address@ == address {
        0
    } else {
        1 + row_place(rows.skip(1), address)
    }
}

/// Find the place of a device among rows.
fn find_row(rows: &Vec<Row>, address: &[u8; 6]) -> (i: usize)
    ensures
        i == row_place(rows@, address@),
        i <= rows@.len(),
{
    let mut i: usize = 0;
    assert(rows@.skip(0) =~= rows@);
    while i < rows.len()
        invariant
            i <= rows@.len(),
            row_place(rows@, address@) == i + row_place(rows@.skip(i as int), address@),
        decreases rows@.len() - i,
    {
        assert(rows@.skip(i as int)[0] == rows@[i as int]);
        if same_address(&rows[i].address, address) {
            return i;
        }
        assert(rows@.skip(i as int).skip(1) =~= rows@.skip(i + 1));
        i += 1;
    }
    i
}

/// The stronger of two signals, where there are two.
pub open spec fn stronger(best: Option<i8>, now: Option<i8>) -> Option<i8> {
    match (best, now) {
        (Some(b), Some(n)) => Some(if n > b {
            n
        } else {
            b
        }),
        _ => best,
    }
}

/// The rows once a device answered. The same one answers once in each cycle: what is said
/// of it is what it said first, but for the strength of its signal.
pub open spec fn answered(rows: Seq<Row>, r: InquiryResult) -> Seq<Row> {
    let at = row_place(rows, r.address@) as int;
    if at < rows.len() {
        rows.update(
            at,
            Row {
                hits: (rows[at].hits + 1) as usize,
                rssi: stronger(rows[at].rssi, r.rssi),
                ..rows[at]
            },
        )
    } else {
        rows.push(
            Row {
                address: r.address,
                hits: 1,
                rssi: r.rssi,
                class_of_device: r.class_of_device,
                page_scan_repetition_mode: r.page_scan_repetition_mode,
                clock_offset: r.clock_offset,
            },
        )
    }
}

/// The rows that some answers fold into, in the order of the first.
pub open spec fn folded(found: Seq<InquiryResult>) -> Seq<Row>
    decreases found.len(),
{
    if found.len() == 0 {
        seq![]
    } else {
        answered(folded(found.drop_last()), found.last())
    }
}

/// No row counts more answers than there were.
proof fn hits_bounded(found: Seq<InquiryResult>)
    ensures
        forall|i: int|
            0 <= i < folded(found).len() ==> (#[trigger] folded(found)[i]).hits <= found.len(),
    decreases found.len(),
{
    if found.len() > 0 {
        let most = found.drop_last();
        hits_bounded(most);
        let rows = folded(most);
        let all = folded(found);
        assert forall|i: int| 0 <= i < all.len() implies (#[trigger] all[i]).hits
            <= found.len() by {
            if i < rows.len() {
                assert(rows[i].hits <= most.len());
            }
        }
    }
}

/// Fold the answers of an inquiry into one row for each device.
pub fn fold_answers(found: &[InquiryResult]) -> (rows: Vec<Row>)
    ensures
        rows@ == folded(found@),
{
    let mut rows: Vec<Row> = Vec::new();
    let mut i: usize = 0;
    assert(found@.take(0) =~= seq![]);
    while i < found.len()
        invariant
            i <= found@.len(),
            rows@ == folded(found@.take(i as int)),
        decreases found@.len() - i,
    {
        assert(found@.take(i + 1).drop_last() =~= found@.take(i as int));
        let at: usize = find_row(&rows, &found[i].address);
        if at < rows.len() {
            let mut r = rows[at];
            proof {
                hits_bounded(found@.take(i as int));
                assert(folded(found@.take(i as int))[at as int].hits <= i);
            }
            r.hits = r.hits + 1;
            if let Some(b) = r.rssi {
                if let Some(n) = found[i].rssi {
                    if n > b {
                        r.rssi = Some(n);
                    }
                }
            }
            rows.set(at, r);
        } else {
            rows.push(
                Row {
                    address: found[i].address,
                    hits: 1,
                    rssi: found[i].rssi,
                    class_of_device: found[i].class_of_device,
                    page_scan_repetition_mode: found[i].page_scan_repetition_mode,
                    clock_offset: found[i].clock_offset,
                },
            );
        }
        i += 1;
    }
    assert(found@.take(i as int) =~= found@);
    rows
}

/// Where a row belongs in the list: gamepads first, then by the strength of the signal.
pub open spec fn rank(r: Row) -> int {
    (if hci::gamepad_class(r.class_of_device@) {
        0int
    } else {
        1000
    }) - (match r.rssi {
        Some(v) => v as int,
        None => -127,
    })
}

/// Find where a row belongs in the list.
pub fn rank_of(r: &Row) -> (k: i32)
    ensures
        k == rank(*r),
        -128 <= k <= 1128,
{
    let major: u8 = r.class_of_device[1] % 32;
    let minor: u8 = (r.class_of_device[0] / 4) % 16;
    let pad: bool = major == 0x05 && (minor == 1 || minor == 2);
    let signal: i32 = match r.rssi {
        Some(v) => v as i32,
        None => -127,
    };
    if pad {
        0 - signal
    } else {
        1000 - signal
    }
}

/// Whether rows are in order.
pub open spec fn in_order(rows: Seq<Row>) -> bool {
    forall|i: int, j: int|
        0 <= i < j < rows.len() ==> rank(#[trigger] rows[i]) <= rank(#[trigger] rows[j])
}

/// The rows in the order they are shown: nothing is lost, and none comes before one that
/// belongs before it.
pub fn sort_rows(rows: Vec<Row>) -> (v: Vec<Row>)
    ensures
        in_order(v@),
        v@.to_multiset() == rows@.to_multiset(),
{
    broadcast use vstd::seq_lib::group_to_multiset_ensures;

    let mut v: Vec<Row> = Vec::new();
    let mut i: usize = 0;
    assert(rows@.take(0) =~= seq![]);
    while i < rows.len()
        invariant
            i <= rows@.len(),
            v@.len() == i,
            in_order(v@),
            v@.to_multiset() == rows@.take(i as int).to_multiset(),
        decreases rows@.len() - i,
    {
        broadcast use vstd::seq_lib::group_to_multiset_ensures;

        let r = rows[i];
        let k: i32 = rank_of(&r);
        let mut p: usize = v.len();
        while p > 0 && rank_of(&v[p - 1]) > k
            invariant
                p <= v@.len(),
                k == rank(r),
                forall|j: int| p <= j < v@.len() ==> rank(#[trigger] v@[j]) > k,
            decreases p,
        {
            p -= 1;
        }
        let ghost before = v@;
        v.insert(p, r);
        assert forall|a: int, b: int| 0 <= a < b < v@.len() implies rank(#[trigger] v@[a]) <= rank(
            #[trigger] v@[b],
        ) by {
            let oa = if a < p {
                a
            } else {
                a - 1
            };
            let ob = if b < p {
                b
            } else {
                b - 1
            };
            if a != p {
                assert(v@[a] == before[oa]);
            }
            if b != p {
                assert(v@[b] == before[ob]);
            }
            if p > 0 {
                assert(rank(before[p - 1]) <= k);
                if a < p && a != p - 1 {
                    assert(rank(before[a]) <= rank(before[p - 1]));
                }
            }
        }
        assert(v@.to_multiset() =~= before.to_multiset().insert(r));
        assert(rows@.take(i + 1) =~= rows@.take(i as int).push(r));
        i += 1;
    }
    assert(rows@.take(i as int) =~= rows@);
    v
}

/// The input of a classic controller on its interrupt channel.
#[derive(Debug)]
pub struct HidStream {
    pub conn_handle: u16,
    /// The channel that the reports come on.
    pub interrupt_cid: u16,
    /// How many reports came.
    pub count: usize,
    /// The last one that was shown.
    pub last: Vec<u8>,
}

/// What one packet of a stream comes to.
#[derive(Debug, Clone, Copy, PartialEq, Eq, Structural)]
pub enum Heard {
    /// It is not a report.
    Nothing,
    /// The controller closes a channel: the stream is over.
    Closed,
    /// A report like the one before.
    Repeated,
    /// A report worth showing.
    Report,
}

/// Whether a packet closes a channel of a link.
pub open spec fn closes(conn_handle: u16, p: acl::AclPacketView) -> bool {
    p.conn_handle == conn_handle && p.cid == CID_SIGNALLING && (l2cap::signal_of(
        p.payload,
    ) matches Some(s) && s.code == SIG_DISCONNECTION_REQUEST)
}

/// Whether a packet is a report of a stream.
pub open spec fn is_report(conn_handle: u16, interrupt_cid: u16, p: acl::AclPacketView) -> bool {
    p.conn_handle == conn_handle && p.cid != CID_SIGNALLING && p.cid == interrupt_cid
}

/// How many reports a stream has had, the last that was shown, and what came of a packet,
/// once the packet is taken into account.
pub open spec fn listened(
    conn_handle: u16,
    interrupt_cid: u16,
    count: nat,
    last: Seq<u8>,
    p: acl::AclPacketView,
) -> (nat, Seq<u8>, Heard) {
    if is_report(conn_handle, interrupt_cid, p) {
        if count + 1 <= 3 || p.payload != last {
            (count + 1, p.payload, Heard::Report)
        } else {
            (count + 1, last, Heard::Repeated)
        }
    } else if closes(conn_handle, p) {
        (count, last, Heard::Closed)
    } else {
        (count, last, Heard::Nothing)
    }
}

impl HidStream {
    /// Begin to listen.
    pub fn new(conn_handle: u16, interrupt_cid: u16) -> (s: HidStream)
        ensures
            s.conn_handle == conn_handle,
            s.interrupt_cid == interrupt_cid,
            s.count == 0,
            s.last@ == Seq::<u8>::empty(),
    {
        HidStream { conn_handle, interrupt_cid, count: 0, last: Vec::new() }
    }

    /// Take one packet into account. After the first three only changes are worth
    /// showing: a controller at rest repeats the same report at its full rate.
    pub fn packet(&mut self, p: &AclPacket) -> (h: Heard)
        requires
            old(self).count < usize::MAX,
        ensures
            final(self).conn_handle == old(self).conn_handle,
            final(self).interrupt_cid == old(self).interrupt_cid,
            (final(self).count as nat, final(self).last@, h) == listened(
                old(self).conn_handle,
                old(self).interrupt_cid,
                old(self).count as nat,
                old(self).last@,
                p@,
            ),
    {
        if p.conn_handle != self.conn_handle {
            return Heard::Nothing;
        }
        if p.cid == CID_SIGNALLING {
            return match parse_signal(p.payload.as_slice()) {
                Some(s) => {
                    if s.code == SIG_DISCONNECTION_REQUEST {
                        Heard::Closed
                    } else {
                        Heard::Nothing
                    }
                },
                None => Heard::Nothing,
            };
        }
        if p.cid != self.interrupt_cid {
            return Heard::Nothing;
        }
        self.count = self.count + 1;
        if self.count <= 3 || !same(p.payload.as_slice(), self.last.as_slice()) {
            self.last = vstd::slice::slice_to_vec(p.payload.as_slice());
            return Heard::Report;
        }
        Heard::Repeated
    }
}

/// Every packet on the interrupt channel of the link counts as one more report, and nothing
/// else does. A report is worth showing where it is one of the first three or differs from the
/// last that was shown, and then it is the last; a report like it is a repetition.
pub proof fn only_changes_are_shown(
    conn: u16,
    cid: u16,
    count: nat,
    last: Seq<u8>,
    p: acl::AclPacketView,
)
    requires
        cid != 1,
    ensures
        ({
            let (n, shown, heard) = listened(conn, cid, count, last, p);
            let report = p.conn_handle == conn && p.cid == cid;
            &&& n == count + (if report {
                1nat
            } else {
                0
            })
            &&& heard == Heard::Report <==> report && (count < 3 || p.payload != last)
            &&& heard == Heard::Repeated <==> report && count >= 3 && p.payload == last
            &&& shown == if heard == Heard::Report {
                p.payload
            } else {
                last
            }
        }),
{
}

/// A stream is over exactly where its controller closes a channel of its link.
pub proof fn a_closing_ends_the_stream(
    conn: u16,
    cid: u16,
    count: nat,
    last: Seq<u8>,
    handle: u16,
    code: u8,
    identifier: u8,
    data: Seq<u8>,
)
    requires
        data.len() <= 0xFFFF,
    ensures
        listened(
            conn,
            cid,
            count,
            last,
            acl::AclPacketView {
                conn_handle: handle,
                cid: 1,
                payload: l2cap::signal_frame(code, identifier, data),
            },
        ).2 == if handle == conn && code == 0x06 {
            Heard::Closed
        } else {
            Heard::Nothing
        },
{
    l2cap::signal_round_trips(code, identifier, data);
}

/// The place of a device among rows is the first that is its own.
proof fn row_place_is_first(rows: Seq<Row>, address: Seq<u8>)
    ensures
        row_place(rows, address) <= rows.len(),
        row_place(rows, address) < rows.len() ==> rows[row_place(rows, address) as int].address@
            == address,
        forall|j: int|
            0 <= j < row_place(rows, address) ==> (#[trigger] rows[j]).address@ != address,
    decreases rows.len(),
{
    if rows.len() > 0 && rows[0].address@ != address {
        let rest = rows.skip(1);
        row_place_is_first(rest, address);
        assert forall|j: int| 0 <= j < row_place(rows, address) implies (
        #[trigger] rows[j]).address@ != address by {
            if j > 0 {
                assert(rest[j - 1] == rows[j]);
            }
        }
    }
}

/// Whether no device has two rows.
pub open spec fn one_row_each(rows: Seq<Row>) -> bool {
    forall|i: int, j: int|
        0 <= i < j < rows.len() ==> (#[trigger] rows[i]).address@ != (#[trigger] rows[j]).address@
}

/// One more answer gives its device a row, or one more hit in the row that it has; every other
/// row stays as it is, and no device gets two.
pub proof fn an_answer_counts_for_its_device(rows: Seq<Row>, r: InquiryResult)
    requires
        one_row_each(rows),
        forall|i: int| 0 <= i < rows.len() ==> (#[trigger] rows[i]).hits < usize::MAX,
    ensures
        ({
            let now = answered(rows, r);
            &&& one_row_each(now)
            &&& forall|i: int|
                0 <= i < rows.len() && (#[trigger] rows[i]).address@ != r.address@ ==> now[i]
                    == rows[i]
            &&& forall|i: int|
                0 <= i < rows.len() && (#[trigger] rows[i]).address@ == r.address@ ==> {
                    &&& now.len() == rows.len()
                    &&& now[i].hits == rows[i].hits + 1
                    &&& now[i].address == rows[i].address
                    &&& now[i].class_of_device == rows[i].class_of_device
                    &&& now[i].clock_offset == rows[i].clock_offset
                    &&& now[i].page_scan_repetition_mode == rows[i].page_scan_repetition_mode
                    &&& now[i].rssi == stronger(rows[i].rssi, r.rssi)
                }
            &&& (forall|i: int|
                0 <= i < rows.len() ==> (#[trigger] rows[i]).address@ != r.address@) ==> {
                &&& now.len() == rows.len() + 1
                &&& now.last().address == r.address && now.last().hits == 1
                &&& now.last().rssi == r.rssi && now.last().class_of_device == r.class_of_device
                &&& now.last().clock_offset == r.clock_offset
                &&& now.last().page_scan_repetition_mode == r.page_scan_repetition_mode
            }
        }),
{
    row_place_is_first(rows, r.address@);
    let at = row_place(rows, r.address@) as int;
    let now = answered(rows, r);
    assert forall|i: int, j: int| 0 <= i < j < now.len() implies (#[trigger] now[i]).address@ != (
    #[trigger] now[j]).address@ by {
        if j < rows.len() {
            assert(rows[i].address@ != rows[j].address@);
        } else {
            assert(rows[i].address@ != r.address@);
        }
    }
}

/// Every device that answered has one row, with as many hits as it gave answers, and nobody
/// else has one.
pub proof fn every_device_has_one_row(found: Seq<InquiryResult>)
    requires
        found.len() < usize::MAX,
    ensures
        one_row_each(folded(found)),
        forall|i: int|
            0 <= i < folded(found).len() ==> (#[trigger] folded(found)[i]).hits == answers_of(
                found,
                folded(found)[i].address@,
            ),
        forall|k: int|
            0 <= k < found.len() ==> has_row(folded(found), (#[trigger] found[k]).address@),
    decreases found.len(),
{
    if found.len() > 0 {
        let most = found.drop_last();
        let r = found.last();
        every_device_has_one_row(most);
        hits_bounded(most);
        let rows = folded(most);
        let now = folded(found);
        an_answer_counts_for_its_device(rows, r);
        row_place_is_first(rows, r.address@);
        assert forall|i: int| 0 <= i < now.len() implies (#[trigger] now[i]).hits == answers_of(
            found,
            now[i].address@,
        ) by {
            if i < rows.len() {
                assert(rows[i].hits == answers_of(most, rows[i].address@));
                assert(now[i].address == rows[i].address);
            } else {
                none_answered(most, rows, r.address@);
            }
        }
        assert forall|k: int| 0 <= k < found.len() implies has_row(
            now,
            (#[trigger] found[k]).address@,
        ) by {
            if k < most.len() {
                assert(most[k] == found[k]);
                assert(has_row(rows, most[k].address@));
                let i = choose|i: int|
                    0 <= i < rows.len() && (#[trigger] rows[i]).address@ == most[k].address@;
                assert(now[i].address == rows[i].address);
            } else {
                let at = row_place(rows, r.address@) as int;
                assert(now[at].address@ == r.address@);
            }
        }
    }
}

/// Whether a device has a row.
pub open spec fn has_row(rows: Seq<Row>, address: Seq<u8>) -> bool {
    exists|i: int| 0 <= i < rows.len() && (#[trigger] rows[i]).address@ == address
}

/// How many answers a device gave.
pub open spec fn answers_of(found: Seq<InquiryResult>, address: Seq<u8>) -> nat
    decreases found.len(),
{
    if found.len() == 0 {
        0
    } else {
        answers_of(found.drop_last(), address) + (if found.last().address@ == address {
            1nat
        } else {
            0
        })
    }
}

/// A device without a row gave no answer.
proof fn none_answered(found: Seq<InquiryResult>, rows: Seq<Row>, address: Seq<u8>)
    requires
        !has_row(rows, address),
        forall|k: int| 0 <= k < found.len() ==> has_row(rows, (#[trigger] found[k]).address@),
    ensures
        answers_of(found, address) == 0,
    decreases found.len(),
{
    if found.len() > 0 {
        let most = found.drop_last();
        assert forall|k: int| 0 <= k < most.len() implies has_row(
            rows,
            (#[trigger] most[k]).address@,
        ) by {
            assert(most[k] == found[k]);
        }
        none_answered(most, rows, address);
        assert(has_row(rows, found[found.len() - 1].address@));
    }
}

/// The stronger of two signals is one of them and not below either; without a first there is
/// none.
pub proof fn the_stronger_signal_is_kept(a: i8, b: i8)
    ensures
        stronger(Some(a), Some(b)) matches Some(c) && c >= a && c >= b && (c == a || c == b),
        stronger(Some(a), None) == Some(a),
        stronger(None, Some(b)) is None,
{
}

/// A gamepad comes before whatever is none, and of two of a kind the one that is heard
/// stronger; one whose strength is not known comes behind all but the weakest.
pub proof fn gamepads_come_first(a: Row, b: Row)
    ensures
        hci::gamepad_class(a.class_of_device@) && !hci::gamepad_class(b.class_of_device@) ==> rank(a)
            < rank(b),
        hci::gamepad_class(a.class_of_device@) == hci::gamepad_class(b.class_of_device@) ==> (
        a.rssi matches Some(x) ==> (b.rssi matches Some(y) ==> (rank(a) < rank(b) <==> x > y))),
        hci::gamepad_class(a.class_of_device@) == hci::gamepad_class(b.class_of_device@) ==> (
        a.rssi matches Some(x) ==> b.rssi is None ==> (rank(a) < rank(b) <==> x > -127)),
{
}

/// The classes of devices have the names that are assigned to them, and every other the same.
pub proof fn classes_have_their_names(major: u8, minor: u8)
    ensures
        major == 0 ==> major_class_text(major) == "Miscellaneous"@,
        major == 1 ==> major_class_text(major) == "Computer"@,
        major == 2 ==> major_class_text(major) == "Phone"@,
        major == 3 ==> major_class_text(major) == "Network AP"@,
        major == 4 ==> major_class_text(major) == "Audio/Video"@,
        major == 5 ==> major_class_text(major) == "Peripheral"@,
        major == 6 ==> major_class_text(major) == "Imaging"@,
        major == 7 ==> major_class_text(major) == "Wearable"@,
        major == 8 ==> major_class_text(major) == "Toy"@,
        major == 9 ==> major_class_text(major) == "Health"@,
        major > 9 ==> major_class_text(major) == "Uncategorised"@,
        minor == 1 ==> peripheral_text(minor) == "joystick"@,
        minor == 2 ==> peripheral_text(minor) == "gamepad"@,
        minor == 3 ==> peripheral_text(minor) == "remote control"@,
        minor == 4 ==> peripheral_text(minor) == "sensing device"@,
        minor == 5 ==> peripheral_text(minor) == "digitiser tablet"@,
        minor == 6 ==> peripheral_text(minor) == "card reader"@,
        minor == 0 || minor > 6 ==> peripheral_text(minor) == "other"@,
{
}

} // verus!
