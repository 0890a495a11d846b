//! Small facts that the probes state, and the bookkeeping of a link that is held open.
use vstd::prelude::*;
use vstd::slice::slice_subrange;
use crate::acl;
use crate::acl::{
    parse_notification, AclPacket, ATT_ERROR_RESPONSE, ATT_EXCHANGE_MTU_RESPONSE, CID_ATT,
};
use crate::bytes;
use crate::bytes::join16;
use crate::hci;
use crate::hci::CommandComplete;
use crate::joycon::HANDLE_INPUT_VALUE;
use crate::text;
use crate::text::{chars_of, digit_of, push_hex2, push_text, value_of};

verus! {

/// The maker of a controller chip, by its company id.
pub open spec fn company_text(id: u16) -> Seq<char> {
    match id {
        2 => "Intel"@,
        10 => "Cambridge Silicon Radio"@,
        15 => "Broadcom"@,
        29 => "Qualcomm"@,
        70 => "MediaTek"@,
        93 => "Realtek"@,
        _ => "unknown"@,
    }
}

/// The maker of a controller chip.
pub fn company_name(id: u16) -> (s: &'static str)
    ensures
        s@ == company_text(id),
{
    match id {
        2 => "Intel",
        10 => "Cambridge Silicon Radio",
        15 => "Broadcom",
        29 => "Qualcomm",
        70 => "MediaTek",
        93 => "Realtek",
        _ => "unknown",
    }
}

/// The Bluetooth release that a version byte corresponds to.
pub open spec fn version_text(v: u8) -> Seq<char> {
    match v {
        6 => "4.0"@,
        7 => "4.1"@,
        8 => "4.2"@,
        9 => "5.0"@,
        10 => "5.1"@,
        11 => "5.2"@,
        12 => "5.3"@,
        13 => "5.4"@,
        _ => "unknown"@,
    }
}

/// The Bluetooth release that a version byte corresponds to.
pub fn bluetooth_version_name(v: u8) -> (s: &'static str)
    ensures
        s@ == version_text(v),
{
    match v {
        6 => "4.0",
        7 => "4.1",
        8 => "4.2",
        9 => "5.0",
        10 => "5.1",
        11 => "5.2",
        12 => "5.3",
        13 => "5.4",
        _ => "unknown",
    }
}

/// What a controller chip says about itself.
#[derive(Debug, Clone, Copy, PartialEq, Eq, Structural)]
pub struct LocalVersion {
    pub hci_version: u8,
    pub lmp_version: u8,
    pub manufacturer: u16,
}

/// What a controller chip says about itself: status, version, revision, link manager
/// version, maker, subversion.
pub open spec fn local_version_of(params: Seq<u8>) -> Option<LocalVersion> {
    if hci::status_of(params) == Some(0u8) && params.len() >= 9 {
        Some(
            LocalVersion {
                hci_version: params[1],
                lmp_version: params[4],
                manufacturer: bytes::u16_at(params, 5),
            },
        )
    } else {
        None
    }
}

/// Read what a controller chip says about itself.
pub fn local_version(c: &CommandComplete) -> (r: Option<LocalVersion>)
    ensures
        r == local_version_of(c.params@),
{
    if c.succeeded() && c.params.len() >= 9 {
        Some(
            LocalVersion {
                hci_version: c.params[1],
                lmp_version: c.params[4],
                manufacturer: join16(c.params[5], c.params[6]),
            },
        )
    } else {
        None
    }
}

/// What a reason for a disconnection means.
pub open spec fn reason_text(r: u8) -> Seq<char> {
    match r {
        0x05 => "authentication failure"@,
        0x08 => "supervision timeout"@,
        0x13 => "remote user terminated"@,
        0x14 => "remote device low resources"@,
        0x15 => "remote device powered off"@,
        0x16 => "terminated by local host"@,
        0x3B => "unacceptable connection parameters"@,
        0x3D => "MIC failure"@,
        0x3E => "connection failed to be established"@,
        _ => "unknown"@,
    }
}

/// Spell a reason for a disconnection.
pub fn disconnect_reason(r: u8) -> (s: &'static str)
    ensures
        s@ == reason_text(r),
{
    match r {
        0x05 => "authentication failure",
        0x08 => "supervision timeout",
        0x13 => "remote user terminated",
        0x14 => "remote device low resources",
        0x15 => "remote device powered off",
        0x16 => "terminated by local host",
        0x3B => "unacceptable connection parameters",
        0x3D => "MIC failure",
        0x3E => "connection failed to be established",
        _ => "unknown",
    }
}

/// The values of the hexadecimal digits in a text, whatever stands between them.
pub open spec fn hex_digits(s: Seq<char>) -> Seq<nat>
    decreases s.len(),
{
    if s.len() == 0 {
        seq![]
    } else {
        match text::hex_value(s.last()) {
            Some(v) => hex_digits(s.drop_last()).push(v),
            None => hex_digits(s.drop_last()),
        }
    }
}

/// The address that twelve hexadecimal digits stand for, whatever stands between them.
pub open spec fn loose_address_of(s: Seq<char>) -> Option<Seq<u8>> {
    let d = hex_digits(s);
    if d.len() == 12 {
        Some(Seq::new(6, |i: int| (16 * d[2 * i] + d[2 * i + 1]) as u8))
    } else {
        None
    }
}

/// The digits of `all`, as numbers without a bound.
pub open spec fn digit_values(all: Seq<u8>) -> Seq<nat> {
    all.map_values(|x: u8| x as nat)
}

/// Read an address, however it is punctuated; `None` unless there are twelve digits.
pub fn parse_loose_addr(s: &str) -> (r: Option<[u8; 6]>)
    ensures
        match r {
            Some(a) => loose_address_of(s@) == Some(a@),
            None => loose_address_of(s@) is None,
        },
{
    let chars = chars_of(s);
    let mut d: Vec<u8> = Vec::new();
    let mut i: usize = 0;
    assert(chars@.take(0) =~= seq![]);
    assert(digit_values(d@) =~= hex_digits(chars@.take(0)));
    while i < chars.len()
        invariant
            i <= chars@.len(),
            digit_values(d@) == hex_digits(chars@.take(i as int)),
            forall|k: int| 0 <= k < d@.len() ==> d@[k] < 16,
        decreases chars@.len() - i,
    {
        assert(chars@.take(i + 1).drop_last() =~= chars@.take(i as int));
        let ghost before = digit_values(d@);
        if let Some(v) = value_of(chars[i]) {
            d.push(v);
            assert(digit_values(d@) =~= before.push(v as nat));
        }
        i += 1;
    }
    assert(chars@.take(i as int) =~= chars@);
    assert(digit_values(d@).len() == d@.len());
    if d.len() != 12 {
        return None;
    }
    assert(forall|k: int| 0 <= k < 12 ==> hex_digits(s@)[k] == d@[k]);
    let a: [u8; 6] = [
        16 * d[0] + d[1],
        16 * d[2] + d[3],
        16 * d[4] + d[5],
        16 * d[6] + d[7],
        16 * d[8] + d[9],
        16 * d[10] + d[11],
    ];
    assert(a@ =~= loose_address_of(s@)->0);
    Some(a)
}

/// A link that is held open: what came in on it.
#[derive(Debug, Clone, Copy, PartialEq, Eq, Structural)]
pub struct Hold {
    /// Input reports.
    pub notifications: u64,
    /// Packets of any kind. None at all is a fault of the transport; some, but no input
    /// reports, means that a handle is wrong.
    pub acl_in: u64,
    pub mtu: Option<u16>,
    /// How many input reports were shown.
    pub dumped: u32,
    /// How many other packets were shown.
    pub other_dumped: u32,
}

/// What one packet on a link that is held open comes to.
#[derive(Debug, Clone, Copy, PartialEq, Eq, Structural)]
pub enum HoldSays {
    /// Nothing worth saying.
    Quiet,
    /// Something that is not of the attribute protocol.
    NotAtt,
    /// An input report, one of the first.
    Input,
    /// The message size was agreed on.
    Mtu(u16),
    /// An error: proof that the protocol works at all.
    AttError,
    /// Any other message.
    Att,
}

impl Hold {
    /// A link and what one packet on it comes to.
    pub open spec fn after(self, p: acl::AclPacketView) -> (Hold, HoldSays) {
        let h = Hold { acl_in: (self.acl_in + 1) as u64, ..self };
        if p.cid != CID_ATT {
            if self.other_dumped < 4 {
                (Hold { other_dumped: (self.other_dumped + 1) as u32, ..h }, HoldSays::NotAtt)
            } else {
                (h, HoldSays::Quiet)
            }
        } else {
            match acl::notification_of(p.payload) {
                Some(n) => if n.handle == HANDLE_INPUT_VALUE {
                    let h = Hold { notifications: (self.notifications + 1) as u64, ..h };
                    if self.dumped < 3 {
                        (Hold { dumped: (self.dumped + 1) as u32, ..h }, HoldSays::Input)
                    } else {
                        (h, HoldSays::Quiet)
                    }
                } else {
                    (h, HoldSays::Quiet)
                },
                None => if p.payload.len() >= 3 && p.payload[0] == ATT_EXCHANGE_MTU_RESPONSE {
                    let m = bytes::u16_at(p.payload, 1);
                    (Hold { mtu: Some(m), ..h }, HoldSays::Mtu(m))
                } else if p.payload.len() > 0 && p.payload[0] == ATT_ERROR_RESPONSE {
                    (h, HoldSays::AttError)
                } else if self.other_dumped < 6 {
                    (Hold { other_dumped: (self.other_dumped + 1) as u32, ..h }, HoldSays::Att)
                } else {
                    (h, HoldSays::Quiet)
                },
            }
        }
    }

    /// Nothing came in yet.
    pub fn new() -> (h: Hold)
        ensures
            h == (Hold { notifications: 0, acl_in: 0, mtu: None, dumped: 0, other_dumped: 0 }),
    {
        Hold { notifications: 0, acl_in: 0, mtu: None, dumped: 0, other_dumped: 0 }
    }

    /// Take one packet into account.
    pub fn packet(&mut self, p: &AclPacket) -> (s: HoldSays)
        requires
            old(self).acl_in < u64::MAX,
            old(self).notifications < u64::MAX,
        ensures
            (*final(self), s) == old(self).after(p@),
    {
        self.acl_in = self.acl_in + 1;
        if p.cid != CID_ATT {
            if self.other_dumped < 4 {
                self.other_dumped = self.other_dumped + 1;
                return HoldSays::NotAtt;
            }
            return HoldSays::Quiet;
        }
        match parse_notification(p.payload.as_slice()) {
            Some(n) => {
                if n.handle == HANDLE_INPUT_VALUE {
                    self.notifications = self.notifications + 1;
                    if self.dumped < 3 {
                        self.dumped = self.dumped + 1;
                        return HoldSays::Input;
                    }
                }
                HoldSays::Quiet
            },
            None => {
                if p.payload.len() >= 3 && p.payload[0] == ATT_EXCHANGE_MTU_RESPONSE {
                    let m: u16 = join16(p.payload[1], p.payload[2]);
                    self.mtu = Some(m);
                    return HoldSays::Mtu(m);
                }
                if p.payload.len() > 0 && p.payload[0] == ATT_ERROR_RESPONSE {
                    return HoldSays::AttError;
                }
                if self.other_dumped < 6 {
                    self.other_dumped = self.other_dumped + 1;
                    return HoldSays::Att;
                }
                HoldSays::Quiet
            },
        }
    }
}

/// The hexadecimal digits of `n`, with zeros in front where there are fewer than `least`.
pub open spec fn hex_number(n: nat, least: nat) -> Seq<char>
    decreases n, least,
{
    if n == 0 && least == 0 {
        seq![]
    } else {
        hex_number(
            n / 16,
            if least > 0 {
                (least - 1) as nat
            } else {
                0
            },
        ).push(text::hex_digit(n as int % 16))
    }
}

/// Append a number in hexadecimal.
fn push_hex_number(out: &mut String, n: u64, least: u8)
    ensures
        final(out)@ == old(out)@ + hex_number(n as nat, least as nat),
    decreases n, least,
{
    if n == 0 && least == 0 {
        assert(out@ =~= old(out)@ + hex_number(0, 0));
    } else {
        let fewer: u8 = if least > 0 {
            least - 1
        } else {
            0
        };
        push_hex_number(out, n / 16, fewer);
        out.push(digit_of((n % 16) as u8));
        assert(out@ =~= old(out)@ + hex_number(n as nat, least as nat));
    }
}

/// A byte as a character, where it is one that can be shown.
pub open spec fn shown(b: u8) -> char {
    if 0x20 <= b < 0x7f {
        b as char
    } else {
        '.'
    }
}

/// Bytes as text, a dot for each that cannot be shown.
pub open spec fn printable_text(data: Seq<u8>) -> Seq<char> {
    data.map_values(|b: u8| shown(b))
}

/// Bytes as text.
pub fn printable(data: &[u8]) -> (s: String)
    ensures
        s@ == printable_text(data@),
{
    let mut s = String::new();
    let mut i: usize = 0;
    while i < data.len()
        invariant
            i <= data@.len(),
            s@ == printable_text(data@.take(i as int)),
        decreases data@.len() - i,
    {
        let b: u8 = data[i];
        if 0x20 <= b && b < 0x7f {
            s.push(b as char);
        } else {
            s.push('.');
        }
        i += 1;
        assert(s@ =~= printable_text(data@.take(i as int)));
    }
    assert(data@.take(i as int) =~= data@);
    s
}

/// Bytes in hexadecimal with a space between each two.
pub open spec fn spaced(data: Seq<u8>) -> Seq<char>
    decreases data.len(),
{
    if data.len() == 0 {
        seq![]
    } else if data.len() == 1 {
        text::hex2(data[0])
    } else {
        spaced(data.drop_last()) + " "@ + text::hex2(data.last())
    }
}

/// A text filled up with spaces to `width` characters.
pub open spec fn filled(s: Seq<char>, width: nat) -> Seq<char> {
    s + Seq::new(
        if s.len() < width {
            (width - s.len()) as nat
        } else {
            0
        },
        |i: int| ' ',
    )
}

/// What sixteen bytes take with the spaces between them.
pub const DUMP_WIDTH: usize = 47;

/// How many bytes stand in a line.
pub const DUMP_BYTES: usize = 16;

/// One line of a dump: where it begins, its bytes, and the same as text.
pub open spec fn dump_line(at: nat, data: Seq<u8>) -> Seq<char> {
    "      "@ + hex_number(at, 8) + "  "@ + filled(spaced(data), DUMP_WIDTH as nat) + "  |"@
        + printable_text(data) + "|"@
}

/// The lines of a dump of `data`, the first byte of which stands at `at`.
pub open spec fn dump_lines(at: nat, data: Seq<u8>) -> Seq<Seq<char>>
    decreases data.len(),
{
    if data.len() == 0 {
        seq![]
    } else if data.len() <= DUMP_BYTES {
        seq![dump_line(at, data)]
    } else {
        seq![dump_line(at, data.take(DUMP_BYTES as int))] + dump_lines(
            at + DUMP_BYTES as nat,
            data.skip(DUMP_BYTES as int),
        )
    }
}

/// Texts by their characters.
pub open spec fn line_views(all: Seq<String>) -> Seq<Seq<char>> {
    all.map_values(|s: String| s@)
}

/// Write one line of a dump.
fn write_line(at: u64, data: &[u8]) -> (s: String)
    requires
        data@.len() <= DUMP_BYTES,
    ensures
        s@ == dump_line(at as nat, data@),
{
    let mut s = String::new();
    push_text(&mut s, "      ");
    push_hex_number(&mut s, at, 8);
    push_text(&mut s, "  ");
    let ghost head = s@;
    let mut i: usize = 0;
    let mut taken: usize = 0;
    assert(data@.take(0) =~= seq![]);
    assert(s@ =~= head + spaced(data@.take(0)));
    while i < data.len()
        invariant
            i <= data@.len() <= DUMP_BYTES,
            taken <= 3 * i,
            taken == spaced(data@.take(i as int)).len(),
            s@ == head + spaced(data@.take(i as int)),
        decreases data@.len() - i,
    {
        proof {
            reveal_strlit(" ");
            let now = data@.take(i + 1);
            assert(now.drop_last() =~= data@.take(i as int));
            assert(now.last() == data@[i as int]);
        }
        if i > 0 {
            push_text(&mut s, " ");
            taken += 1;
        }
        push_hex2(&mut s, data[i]);
        taken += 2;
        i += 1;
        assert(s@ =~= head + spaced(data@.take(i as int)));
    }
    assert(data@.take(i as int) =~= data@);
    let ghost hex = spaced(data@);
    let ghost mut more: nat = 0;
    while taken < DUMP_WIDTH
        invariant
            hex.len() <= 3 * DUMP_BYTES,
            taken == hex.len() + more,
            more > 0 ==> taken <= DUMP_WIDTH,
            s@ == head + hex + Seq::new(more, |i: int| ' '),
        decreases DUMP_WIDTH - taken,
    {
        s.push(' ');
        taken += 1;
        proof {
            more = more + 1;
        }
        assert(s@ =~= head + hex + Seq::new(more, |i: int| ' '));
    }
    assert(s@ =~= head + filled(hex, DUMP_WIDTH as nat));
    push_text(&mut s, "  |");
    let letters = printable(data);
    push_text(&mut s, letters.as_str());
    push_text(&mut s, "|");
    assert(s@ =~= dump_line(at as nat, data@));
    s
}

/// Dump some bytes.
pub fn hexdump(addr: u32, data: &[u8]) -> (lines: Vec<String>)
    requires
        addr + data@.len() <= usize::MAX,
    ensures
        line_views(lines@) == dump_lines(addr as nat, data@),
{
    let mut lines: Vec<String> = Vec::new();
    let mut i: usize = 0;
    assert(data@.skip(0) =~= data@);
    assert(line_views(lines@) =~= seq![]);
    while i < data.len()
        invariant
            i <= data@.len(),
            addr + data@.len() <= usize::MAX,
            line_views(lines@) + dump_lines(addr as nat + i as nat, data@.skip(i as int))
                == dump_lines(addr as nat, data@),
        decreases data@.len() - i,
    {
        let left: usize = data.len() - i;
        let n: usize = if left < DUMP_BYTES {
            left
        } else {
            DUMP_BYTES
        };
        let part = slice_subrange(data, i, i + n);
        let ghost rest = data@.skip(i as int);
        assert(part@ =~= rest.take(n as int));
        let line = write_line(addr as u64 + i as u64, part);
        let ghost v = line@;
        let ghost before = line_views(lines@);
        lines.push(line);
        proof {
            assert(line_views(lines@) =~= before.push(v));
            if rest.len() <= DUMP_BYTES {
                assert(rest.take(n as int) =~= rest);
                assert(data@.skip(i + n) =~= seq![]);
            } else {
                assert(rest.skip(n as int) =~= data@.skip(i + n));
            }
            assert(line_views(lines@) + dump_lines(
                addr as nat + (i + n) as nat,
                data@.skip(i + n),
            ) =~= before + dump_lines(addr as nat + i as nat, rest));
        }
        i += n;
    }
    assert(data@.skip(i as int) =~= seq![]);
    assert(line_views(lines@) =~= dump_lines(addr as nat, data@));
    lines
}

/// What a chip says about itself is read from the fields of its reply, low byte first; a reply
/// of a failed command, or one that is cut short, says nothing.
pub proof fn a_version_is_read(
    status: u8,
    version: u8,
    revision: (u8, u8),
    manager: u8,
    maker: (u8, u8),
    sub: (u8, u8),
    more: Seq<u8>,
)
    ensures
        ({
            let fields = seq![
                status,
                version,
                revision.0,
                revision.1,
                manager,
                maker.0,
                maker.1,
                sub.0,
                sub.1,
            ];
            &&& local_version_of(fields + more) is Some <==> status == 0
            &&& local_version_of(fields + more) matches Some(v) ==> v.hci_version == version
                && v.lmp_version == manager && v.manufacturer == maker.0 + 256 * maker.1
            &&& local_version_of(fields.take(8)) is None
        }),
{
    let fields = seq![
        status,
        version,
        revision.0,
        revision.1,
        manager,
        maker.0,
        maker.1,
        sub.0,
        sub.1,
    ];
    bytes::reading_takes_the_low_byte_first(fields + more, 5);
}

/// The releases count on: behind 4.0 at version six come two more of the fourth and then five
/// of the fifth.
pub proof fn releases_count_on(v: u8)
    ensures
        6 <= v <= 8 ==> version_text(v) == seq!['4', '.', (0x30 + (v - 6)) as char],
        9 <= v <= 13 ==> version_text(v) == seq!['5', '.', (0x30 + (v - 9)) as char],
        v < 6 || v > 13 ==> version_text(v) == "unknown"@,
{
    reveal_strlit("4.0");
    reveal_strlit("4.1");
    reveal_strlit("4.2");
    reveal_strlit("5.0");
    reveal_strlit("5.1");
    reveal_strlit("5.2");
    reveal_strlit("5.3");
    reveal_strlit("5.4");
}

/// The digits of two texts are those of the first and then those of the second, and anything
/// that is no digit makes no difference.
pub proof fn digits_add_up(a: Seq<char>, b: Seq<char>, c: char)
    ensures
        hex_digits(a + b) == hex_digits(a) + hex_digits(b),
        text::hex_value(c) is None ==> hex_digits(a + seq![c] + b) == hex_digits(a + b),
        text::hex_value(c) matches Some(v) ==> hex_digits(seq![c]) == seq![v],
    decreases b.len(),
{
    assert(seq![c].drop_last() =~= Seq::<char>::empty());
    assert(hex_digits(Seq::<char>::empty()) =~= seq![]);
    let mid = a + seq![c] + b;
    if b.len() == 0 {
        assert(a + b =~= a);
        assert(mid.drop_last() =~= a);
        assert(mid.last() == c);
        assert(hex_digits(a) + hex_digits(b) =~= hex_digits(a));
    } else {
        let most = b.drop_last();
        digits_add_up(a, most, c);
        assert((a + b).drop_last() =~= a + most);
        assert((a + b).last() == b.last());
        assert(mid.drop_last() =~= a + seq![c] + most);
        assert(mid.last() == b.last());
        assert(hex_digits(a + b) =~= hex_digits(a) + hex_digits(b));
    }
    if let Some(v) = text::hex_value(c) {
        assert(hex_digits(seq![c]) =~= seq![v]);
    }
}

/// The digits of a byte are its halves.
proof fn digits_of_a_byte(b: u8)
    ensures
        hex_digits(text::hex2(b)) == seq![(b / 16) as nat, (b % 16) as nat],
{
    let hi = text::hex_digit(b as int / 16);
    let lo = text::hex_digit(b as int % 16);
    text::hex_digit_reads_back(b as int / 16);
    text::hex_digit_reads_back(b as int % 16);
    digits_add_up(seq![hi], seq![lo], hi);
    digits_add_up(seq![hi], seq![lo], lo);
    assert(text::hex2(b) =~= seq![hi] + seq![lo]);
    assert(hex_digits(text::hex2(b)) =~= seq![(b / 16) as nat, (b % 16) as nat]);
}

/// Six bytes with any punctuation between them are read as an address: the digits of the first
/// byte, what stands between, and so on. With a digit more or fewer nothing is read.
pub proof fn an_address_is_read_however_punctuated(a: Seq<u8>, between: Seq<char>, digit: char)
    requires
        a.len() == 6,
        forall|i: int|
            0 <= i < between.len() ==> text::hex_value(#[trigger] between[i]) is None,
        text::hex_value(digit) is Some,
    ensures
        ({
            let s = text::hex2(a[0]) + between + text::hex2(a[1]) + between + text::hex2(a[2])
                + between + text::hex2(a[3]) + between + text::hex2(a[4]) + between + text::hex2(
                a[5],
            );
            &&& loose_address_of(s) == Some(a)
            &&& loose_address_of(s + seq![digit]) is None
            &&& loose_address_of(text::hex2(a[0]) + between + text::hex2(a[1])) is None
        }),
{
    no_digits(between);
    let p0 = text::hex2(a[0]);
    let p1 = p0 + between + text::hex2(a[1]);
    let p2 = p1 + between + text::hex2(a[2]);
    let p3 = p2 + between + text::hex2(a[3]);
    let p4 = p3 + between + text::hex2(a[4]);
    let p5 = p4 + between + text::hex2(a[5]);
    digits_of_a_byte(a[0]);
    one_more_byte(p0, between, a[1]);
    one_more_byte(p1, between, a[2]);
    one_more_byte(p2, between, a[3]);
    one_more_byte(p3, between, a[4]);
    one_more_byte(p4, between, a[5]);
    digits_add_up(p5, seq![digit], digit);
    let d = hex_digits(p5);
    assert(d.len() == 12);
    assert(d[0] == a[0] / 16 && d[1] == a[0] % 16 && d[2] == a[1] / 16 && d[3] == a[1] % 16
        && d[4] == a[2] / 16 && d[5] == a[2] % 16 && d[6] == a[3] / 16 && d[7] == a[3] % 16
        && d[8] == a[4] / 16 && d[9] == a[4] % 16 && d[10] == a[5] / 16 && d[11] == a[5] % 16);
    assert(loose_address_of(p5)->0 =~= a);
}

/// A text without a digit has none.
proof fn no_digits(s: Seq<char>)
    requires
        forall|i: int| 0 <= i < s.len() ==> text::hex_value(#[trigger] s[i]) is None,
    ensures
        hex_digits(s) == Seq::<nat>::empty(),
    decreases s.len(),
{
    if s.len() > 0 {
        assert(text::hex_value(s[s.len() - 1]) is None);
        no_digits(s.drop_last());
    }
}

/// One more byte adds its two digits.
proof fn one_more_byte(s: Seq<char>, between: Seq<char>, b: u8)
    requires
        hex_digits(between) == Seq::<nat>::empty(),
    ensures
        hex_digits(s + between + text::hex2(b)) == hex_digits(s) + seq![
            (b / 16) as nat,
            (b % 16) as nat,
        ],
{
    digits_of_a_byte(b);
    digits_add_up(s, between, ' ');
    digits_add_up(s + between, text::hex2(b), ' ');
    assert(hex_digits(s) + hex_digits(between) =~= hex_digits(s));
}

/// Every packet is counted once, and as an input report where it is a notification of the
/// input value; nothing else makes either count move. The message size is what was last agreed
/// on.
pub proof fn every_packet_is_counted(h: Hold, p: acl::AclPacketView)
    requires
        h.acl_in < u64::MAX,
        h.notifications < u64::MAX,
    ensures
        ({
            let (n, says) = h.after(p);
            let input = p.cid == 4 && (acl::notification_of(p.payload) matches Some(x) && x.handle
                == 0x000E);
            &&& n.acl_in == h.acl_in + 1
            &&& n.notifications == h.notifications + (if input {
                1int
            } else {
                0
            })
            &&& says == HoldSays::Input <==> input && h.dumped < 3
            &&& n.dumped == h.dumped + (if says == HoldSays::Input {
                1int
            } else {
                0
            })
            &&& n.other_dumped == h.other_dumped + (if says == HoldSays::NotAtt || says
                == HoldSays::Att {
                1int
            } else {
                0
            })
            &&& says == HoldSays::NotAtt <==> p.cid != 4 && h.other_dumped < 4
            &&& says == HoldSays::Att ==> p.cid == 4 && h.other_dumped < 6
            &&& n.mtu != h.mtu ==> says is Mtu
            &&& says matches HoldSays::Mtu(m) ==> n.mtu == Some(m)
        }),
{
}

/// An agreement on a message size and an error are told by their first byte.
pub proof fn agreements_and_errors_are_told(h: Hold, conn: u16, lo: u8, hi: u8, more: Seq<u8>)
    ensures
        ({
            let att = |payload: Seq<u8>|
                acl::AclPacketView { conn_handle: conn, cid: 4, payload };
            &&& h.after(att(seq![0x03u8, lo, hi] + more)).1 == HoldSays::Mtu(
                (lo + 256 * hi) as u16,
            )
            &&& h.after(att(seq![0x01u8, lo] + more)).1 == HoldSays::AttError
        }),
{
    bytes::reading_takes_the_low_byte_first(seq![0x03u8, lo, hi] + more, 1);
}

/// A number in hexadecimal reads back as itself, has as many digits as were asked for, and
/// more only where it needs them.
pub proof fn a_number_is_written_in_hexadecimal(n: nat, least: nat)
    ensures
        text::hex_number(hex_number(n, least)) == Some(n),
        hex_number(n, least).len() >= least,
        hex_number(n, least).len() > least ==> hex_number(n, least)[0] != '0',
    decreases n, least,
{
    if n > 0 || least > 0 {
        let fewer = if least > 0 {
            (least - 1) as nat
        } else {
            0
        };
        let front = hex_number(n / 16, fewer);
        let d = n as int % 16;
        a_number_is_written_in_hexadecimal(n / 16, fewer);
        text::hex_digit_reads_back(d);
        let s = hex_number(n, least);
        assert(s == front.push(text::hex_digit(d)));
        assert(s.drop_last() =~= front);
        assert(s.last() == text::hex_digit(d));
        assert(16 * (n / 16) + d == n);
        if s.len() > least {
            if front.len() > fewer {
                assert(s[0] == front[0]);
            } else {
                assert(least == 0);
                assert(front.len() == 0);
                if n / 16 > 0 {
                    assert(text::hex_number(front) == Some(0nat));
                }
                assert(n / 16 == 0);
                assert(d == n && d > 0);
                assert(text::hex_value('0') == Some(0nat));
            }
        }
    }
}

/// Text shows as itself, character for character, and a dot stands for whatever else there is:
/// control characters and what lies behind the printable ones.
pub proof fn text_shows_as_itself(data: Seq<u8>, i: int)
    requires
        0 <= i < data.len(),
    ensures
        printable_text(data).len() == data.len(),
        ' ' as u32 <= data[i] <= '~' as u32 ==> printable_text(data)[i] as u32 == data[i],
        !(' ' as u32 <= data[i] <= '~' as u32) ==> printable_text(data)[i] == '.',
{
}

/// The digits of every byte stand three characters apart, with a space behind each but the
/// last.
pub proof fn bytes_stand_three_apart(data: Seq<u8>, i: int)
    requires
        0 <= i < data.len(),
    ensures
        spaced(data).len() == 3 * data.len() - 1,
        spaced(data).subrange(3 * i, 3 * i + 2) == text::hex2(data[i]),
        i + 1 < data.len() ==> spaced(data)[3 * i + 2] == ' ',
        spaced(seq![]) == Seq::<char>::empty(),
    decreases data.len(),
{
    reveal_strlit(" ");
    let s = spaced(data);
    if data.len() == 1 {
        assert(s.subrange(0, 2) =~= s);
    } else {
        let most = data.drop_last();
        if i < most.len() {
            bytes_stand_three_apart(most, i);
            assert(s.subrange(3 * i, 3 * i + 2) =~= spaced(most).subrange(3 * i, 3 * i + 2));
        } else {
            bytes_stand_three_apart(most, i - 1);
            assert(s.subrange(3 * i, 3 * i + 2) =~= text::hex2(data[i]));
        }
    }
}

/// A text is filled up behind its end, with nothing but spaces, and never cut.
pub proof fn filling_up_adds_spaces(s: Seq<char>, width: nat, i: int)
    ensures
        filled(s, width).take(s.len() as int) == s,
        s.len() <= width ==> filled(s, width).len() == width,
        s.len() > width ==> filled(s, width) == s,
        s.len() <= i < width ==> filled(s, width)[i] == ' ',
{
    assert(filled(s, width).take(s.len() as int) =~= s);
    if s.len() > width {
        assert(filled(s, width) =~= s);
    }
}

/// A dump has a line for every sixteen bytes and for what is left; line `k` begins sixteen
/// times `k` further on, and holds the bytes from there.
pub proof fn a_dump_goes_by_sixteen(at: nat, data: Seq<u8>, k: int)
    ensures
        dump_lines(at, data).len() == (data.len() + 15) / 16,
        0 <= k < dump_lines(at, data).len() ==> dump_lines(at, data)[k] == dump_line(
            at + 16 * k as nat,
            data.subrange(
                16 * k,
                if 16 * k + 16 < data.len() {
                    16 * k + 16
                } else {
                    data.len() as int
                },
            ),
        ),
    decreases data.len(),
{
    if data.len() == 0 {
    } else if data.len() <= 16 {
        assert(data.subrange(0, data.len() as int) =~= data);
    } else {
        let rest = data.skip(16);
        a_dump_goes_by_sixteen(at + 16, rest, k - 1);
        if k == 0 {
            assert(data.take(16) =~= data.subrange(0, 16));
        } else if 0 < k < dump_lines(at, data).len() {
            let from = 16 * (k - 1);
            let to = if from + 16 < rest.len() {
                from + 16
            } else {
                rest.len() as int
            };
            assert(dump_lines(at, data)[k] == dump_lines(at + 16, rest)[k - 1]);
            assert(rest.subrange(from, to) =~= data.subrange(from + 16, to + 16));
        }
    }
}

/// In a line of a dump the place stands first, in eight digits or more, then the bytes, and at
/// the end, between bars, the text; and the text begins at the same column however many bytes
/// there are.
pub proof fn the_columns_of_a_dump_line_up(at: nat, data: Seq<u8>)
    requires
        data.len() <= 16,
        at < 0x1_0000_0000,
    ensures
        ({
            let line = dump_line(at, data);
            let n = hex_number(at, 8).len() as int;
            &&& n == 8
            &&& line.len() == 6 + n + 2 + 47 + 3 + data.len() + 1
            &&& line.subrange(6, 6 + n) == hex_number(at, 8)
            &&& line.subrange(8 + n, 8 + n + spaced(data).len()) == spaced(data)
            &&& line[57 + n] == '|' && line.last() == '|'
            &&& line.subrange(58 + n, 58 + n + data.len()) == printable_text(data)
        }),
{
    reveal_strlit("      ");
    reveal_strlit("  ");
    reveal_strlit("  |");
    reveal_strlit("|");
    let line = dump_line(at, data);
    a_number_is_written_in_hexadecimal(at, 8);
    eight_digits(at);
    let n = hex_number(at, 8).len() as int;
    if data.len() > 0 {
        bytes_stand_three_apart(data, 0);
    }
    filling_up_adds_spaces(spaced(data), 47, 0);
    let f = filled(spaced(data), 47);
    assert(line.subrange(6, 6 + n) =~= hex_number(at, 8));
    assert(line.subrange(8 + n, 55 + n) =~= f);
    assert(line.subrange(8 + n, 8 + n + spaced(data).len()) =~= spaced(data)) by {
        assert(f.take(spaced(data).len() as int) =~= spaced(data));
        assert(line.subrange(8 + n, 8 + n + spaced(data).len()) =~= f.take(
            spaced(data).len() as int,
        ));
    }
    assert(line.subrange(58 + n, 58 + n + data.len()) =~= printable_text(data));
}

/// Eight digits are enough for four bytes.
proof fn eight_digits(n: nat)
    requires
        n < 0x1_0000_0000,
    ensures
        hex_number(n, 8).len() == 8,
{
    reveal_with_fuel(hex_number, 10);
}

/// Each maker has its own words, and what is not known has others.
pub proof fn makers_are_told_apart(id: u16)
    ensures
        company_text(id) == "Intel"@ <==> id == 2,
        company_text(id) == "Cambridge Silicon Radio"@ <==> id == 10,
        company_text(id) == "Broadcom"@ <==> id == 15,
        company_text(id) == "Qualcomm"@ <==> id == 29,
        company_text(id) == "MediaTek"@ <==> id == 70,
        company_text(id) == "Realtek"@ <==> id == 93,
{
    reveal_strlit("unknown");
    reveal_strlit("Intel");
    reveal_strlit("Cambridge Silicon Radio");
    reveal_strlit("Broadcom");
    reveal_strlit("Qualcomm");
    reveal_strlit("MediaTek");
    reveal_strlit("Realtek");
    assert("Intel"@[0] == 'I' && "Cambridge Silicon Radio"@[0] == 'C' && "Broadcom"@[0] == 'B'
        && "Qualcomm"@[0] == 'Q' && "MediaTek"@[0] == 'M' && "Realtek"@[0] == 'R' && "unknown"@[0]
        == 'u');
}

/// Each reason for a disconnection has its own words, and what is not known has others.
pub proof fn reasons_are_told_apart(r: u8)
    ensures
        reason_text(r) == "authentication failure"@ <==> r == 0x05,
        reason_text(r) == "supervision timeout"@ <==> r == 0x08,
        reason_text(r) == "remote user terminated"@ <==> r == 0x13,
        reason_text(r) == "remote device low resources"@ <==> r == 0x14,
        reason_text(r) == "remote device powered off"@ <==> r == 0x15,
        reason_text(r) == "terminated by local host"@ <==> r == 0x16,
        reason_text(r) == "unacceptable connection parameters"@ <==> r == 0x3B,
        reason_text(r) == "MIC failure"@ <==> r == 0x3D,
        reason_text(r) == "connection failed to be established"@ <==> r == 0x3E,
{
    reveal_strlit("unknown");
    reveal_strlit("authentication failure");
    reveal_strlit("supervision timeout");
    reveal_strlit("remote user terminated");
    reveal_strlit("remote device low resources");
    reveal_strlit("remote device powered off");
    reveal_strlit("terminated by local host");
    reveal_strlit("unacceptable connection parameters");
    reveal_strlit("MIC failure");
    reveal_strlit("connection failed to be established");
    assert("authentication failure"@[0] == 'a' && "remote user terminated"@[0] == 'r');
    assert("supervision timeout"@.len() == 19 && "remote device low resources"@.len() == 27
        && "remote device powered off"@.len() == 25 && "terminated by local host"@.len() == 24);
    assert("unacceptable connection parameters"@.len() == 34 && "MIC failure"@.len() == 11
        && "connection failed to be established"@.len() == 35 && "unknown"@.len() == 7);
    assert("authentication failure"@.len() == 22 && "remote user terminated"@.len() == 22);
}

} // verus!
