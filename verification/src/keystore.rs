//! Where Bluetooth Classic link keys live.
//!
//! A link key is the bond, and the bond belongs to the dongle: pairing establishes a
//! shared secret between a controller and one radio's address. The store is plain
//! text, one device per line, because it is something a person may want to read, copy
//! or edit while diagnosing a controller that will not reconnect:
//!
//! ```text
//! address key [@adapter] [name, spaces and all]
//! ```
//!
//! The one name that this cannot hold is one that begins like an adapter where none is
//! known. Its line has an `@` before the key, which no other line has.
use vstd::prelude::*;
use crate::text;
use crate::text::{
    chars_of, find_char, find_white, parse_hex_byte, push_hex, push_hex2, push_text, string_of,
    to_lower, trim,
};

verus! {

/// File name inside the chosen directory.
pub const FILE_NAME: &'static str = "bt-classic-keys.txt";

/// Environment variable that names the directory, for anyone who would rather not go
/// through the settings.
pub const ENV_DIR: &'static str = "FLEXINPUT_BT_KEY_DIR";

/// The bytes of `a` in hexadecimal with colons between them: `aa:bb:cc:dd:ee:ff`.
pub open spec fn address_text(a: Seq<u8>) -> Seq<char>
    decreases a.len(),
{
    if a.len() == 0 {
        seq![]
    } else if a.len() == 1 {
        text::hex2(a[0])
    } else {
        address_text(a.drop_last()) + seq![':'] + text::hex2(a.last())
    }
}

/// The form of an address that a person reads off a device list.
pub fn format_addr(addr: [u8; 6]) -> (out: String)
    ensures
        out@ == address_text(addr@),
{
    let mut out = String::new();
    push_hex2(&mut out, addr[0]);
    assert(out@ =~= address_text(addr@.take(1)));
    let mut i: usize = 1;
    while i < 6
        invariant
            1 <= i <= 6,
            out@ == address_text(addr@.take(i as int)),
        decreases 6 - i,
    {
        out.push(':');
        push_hex2(&mut out, addr[i]);
        i += 1;
        assert(addr@.take(i as int).drop_last() =~= addr@.take(i - 1));
        assert(out@ =~= address_text(addr@.take(i as int)));
    }
    assert(addr@.take(6) =~= addr@);
    out
}

/// The parts of `s` between the `sep`s in it.
pub open spec fn pieces(s: Seq<char>, sep: char) -> Seq<Seq<char>>
    decreases s.len(),
{
    let i = text::char_index(s, sep) as int;
    if i >= s.len() {
        seq![s]
    } else {
        seq![s.take(i)] + pieces(s.skip(i + 1), sep)
    }
}

/// A part without a separator, a separator and more: that part comes first.
proof fn pieces_step(part: Seq<char>, sep: char, rest: Seq<char>)
    requires
        forall|j: int| 0 <= j < part.len() ==> #[trigger] part[j] != sep,
    ensures
        pieces(part + seq![sep] + rest, sep) == seq![part] + pieces(rest, sep),
        pieces(part, sep) == seq![part],
{
    let s = part + seq![sep] + rest;
    assert forall|j: int| 0 <= j < part.len() implies !text::is_char(sep)(#[trigger] s[j]) by {
        assert(s[j] == part[j]);
    }
    text::index_where_unique(s, text::is_char(sep), part.len() as int);
    assert(s.take(part.len() as int) =~= part);
    assert(s.skip(part.len() as int + 1) =~= rest);
    text::index_where_unique(part, text::is_char(sep), part.len() as int);
}

/// The six bytes that `s` spells, each in hexadecimal, with colons between them.
pub open spec fn address_of(s: Seq<char>) -> Option<Seq<u8>> {
    let p = pieces(s, ':');
    if p.len() == 6 && (forall|i: int| 0 <= i < 6 ==> (#[trigger] text::hex_byte(p[i])) is Some) {
        Some(Seq::new(6, |i: int| text::hex_byte(p[i])->0))
    } else {
        None
    }
}

/// Cut `s` at every `sep`.
fn split<'a>(s: &'a [char], sep: char) -> (v: Vec<&'a [char]>)
    ensures
        v@.len() == pieces(s@, sep).len(),
        forall|i: int| 0 <= i < v@.len() ==> (#[trigger] v@[i])@ == pieces(s@, sep)[i],
{
    let mut v: Vec<&'a [char]> = Vec::new();
    let mut rest: &'a [char] = s;
    let ghost mut done: Seq<Seq<char>> = seq![];
    assert(done + pieces(rest@, sep) =~= pieces(s@, sep));
    loop
        invariant_except_break
            done.len() == v@.len(),
            forall|i: int| 0 <= i < v@.len() ==> (#[trigger] v@[i])@ == done[i],
            done + pieces(rest@, sep) == pieces(s@, sep),
        ensures
            v@.len() == pieces(s@, sep).len(),
            forall|i: int| 0 <= i < v@.len() ==> (#[trigger] v@[i])@ == pieces(s@, sep)[i],
        decreases rest@.len(),
    {
        let i: usize = find_char(rest, sep);
        if i >= rest.len() {
            v.push(rest);
            assert(pieces(s@, sep) =~= done.push(rest@));
            break;
        }
        let part = vstd::slice::slice_subrange(rest, 0, i);
        assert(part@ =~= rest@.take(i as int));
        let tail = vstd::slice::slice_subrange(rest, i + 1, rest.len());
        assert(tail@ =~= rest@.skip(i + 1));
        v.push(part);
        proof {
            assert(done.push(part@) + pieces(tail@, sep) =~= done + pieces(rest@, sep));
            done = done.push(part@);
        }
        rest = tail;
    }
    v
}

/// Parse an address out of some characters.
fn read_addr(s: &[char]) -> (r: Option<[u8; 6]>)
    ensures
        match r {
            Some(a) => address_of(s@) == Some(a@),
            None => address_of(s@) is None,
        },
{
    let v = split(s, ':');
    if v.len() != 6 {
        return None;
    }
    let ghost p = pieces(s@, ':');
    let mut a: [u8; 6] = [0; 6];
    let mut i: usize = 0;
    while i < 6
        invariant
            i <= 6,
            v@.len() == 6,
            p == pieces(s@, ':'),
            p.len() == 6,
            forall|j: int| 0 <= j < v@.len() ==> (#[trigger] v@[j])@ == p[j],
            forall|j: int| 0 <= j < i ==> (#[trigger] text::hex_byte(p[j])) == Some(a@[j]),
        decreases 6 - i,
    {
        match parse_hex_byte(v[i]) {
            Some(b) => {
                a[i] = b;
            },
            None => {
                assert(text::hex_byte(p[i as int]) is None);
                return None;
            },
        }
        i += 1;
    }
    assert(a@ =~= Seq::new(6, |j: int| text::hex_byte(p[j])->0));
    Some(a)
}

/// Parse `aa:bb:cc:dd:ee:ff` back into an address.
pub fn parse_addr(s: &str) -> (r: Option<[u8; 6]>)
    ensures
        match r {
            Some(a) => address_of(s@) == Some(a@),
            None => address_of(s@) is None,
        },
{
    let v = chars_of(s);
    read_addr(v.as_slice())
}

/// An address text by its first byte.
proof fn address_text_front(a: Seq<u8>)
    requires
        a.len() > 1,
    ensures
        address_text(a) == text::hex2(a[0]) + seq![':'] + address_text(a.skip(1)),
    decreases a.len(),
{
    if a.len() == 2 {
        assert(address_text(a.drop_last()) == text::hex2(a[0]));
        assert(address_text(a.skip(1)) == text::hex2(a[1]));
        assert(address_text(a) =~= text::hex2(a[0]) + seq![':'] + address_text(a.skip(1)));
    } else {
        address_text_front(a.drop_last());
        assert(a.drop_last().skip(1) =~= a.skip(1).drop_last());
        assert(a.skip(1).last() == a.last());
        assert(address_text(a) =~= text::hex2(a[0]) + seq![':'] + address_text(a.skip(1)));
    }
}

/// The parts of an address text are the digits of its bytes.
proof fn address_text_pieces(a: Seq<u8>)
    requires
        a.len() > 0,
    ensures
        pieces(address_text(a), ':') == Seq::new(a.len(), |i: int| text::hex2(a[i])),
    decreases a.len(),
{
    text::hex2_reads_back(a[0]);
    if a.len() == 1 {
        pieces_step(text::hex2(a[0]), ':', seq![]);
        assert(seq![text::hex2(a[0])] =~= Seq::new(1, |i: int| text::hex2(a[i])));
    } else {
        address_text_front(a);
        address_text_pieces(a.skip(1));
        pieces_step(text::hex2(a[0]), ':', address_text(a.skip(1)));
        assert(pieces(address_text(a), ':') =~= Seq::new(a.len(), |i: int| text::hex2(a[i])));
    }
}

/// An address text holds no white space and no capital letter, and begins and ends
/// with a digit.
proof fn address_text_is_plain(a: Seq<u8>)
    ensures
        plain_word(address_text(a)),
        a.len() > 0 ==> address_text(a).len() == 3 * a.len() - 1,
    decreases a.len(),
{
    let t = address_text(a);
    if a.len() > 0 {
        text::hex_digit_reads_back(a.last() as int / 16);
        text::hex_digit_reads_back(a.last() as int % 16);
        if a.len() > 1 {
            let p = address_text(a.drop_last());
            address_text_is_plain(a.drop_last());
            assert forall|j: int| 0 <= j < t.len() implies !text::is_white(#[trigger] t[j])
                && text::lower(t[j]) == t[j] by {
                if j < p.len() {
                    assert(t[j] == p[j]);
                    assert(text::lowered(p)[j] == text::lower(p[j]));
                }
            }
        }
        assert(text::lowered(t) =~= t);
    } else {
        assert(text::lowered(t) =~= t);
    }
}

/// An address survives its text.
pub proof fn an_address_round_trips(a: Seq<u8>)
    requires
        a.len() == 6,
    ensures
        address_of(address_text(a)) == Some(a),
{
    let p = pieces(address_text(a), ':');
    address_text_pieces(a);
    assert forall|i: int| 0 <= i < 6 implies (#[trigger] text::hex_byte(p[i])) == Some(a[i]) by {
        text::hex2_reads_back(a[i]);
    }
    assert(Seq::new(6, |i: int| text::hex_byte(p[i])->0) =~= a);
}

/// Putting a text in lower case moves none of its colons.
proof fn pieces_of_lowered(s: Seq<char>)
    ensures
        pieces(text::lowered(s), ':') == pieces(s, ':').map_values(
            |p: Seq<char>| text::lowered(p),
        ),
    decreases s.len(),
{
    let l = text::lowered(s);
    let i = text::char_index(s, ':') as int;
    text::index_where_is_first(s, text::is_char(':'));
    assert forall|j: int| 0 <= j < i implies !text::is_char(':')(#[trigger] l[j]) by {
        assert(!text::is_char(':')(s[j]));
    }
    text::index_where_unique(l, text::is_char(':'), i);
    if i < s.len() {
        pieces_of_lowered(s.skip(i + 1));
        assert(l.take(i) =~= text::lowered(s.take(i)));
        assert(l.skip(i + 1) =~= text::lowered(s.skip(i + 1)));
    }
    assert(pieces(l, ':') =~= pieces(s, ':').map_values(|p: Seq<char>| text::lowered(p)));
}

/// Digits spell the same number in either case.
proof fn hex_number_of_lowered(s: Seq<char>)
    ensures
        text::hex_number(text::lowered(s)) == text::hex_number(s),
    decreases s.len(),
{
    if s.len() > 0 {
        hex_number_of_lowered(s.drop_last());
        assert(text::lowered(s).drop_last() =~= text::lowered(s.drop_last()));
    }
}

/// The case of an address does not matter.
pub proof fn the_case_of_an_address_does_not_matter(s: Seq<char>)
    ensures
        address_of(text::lowered(s)) == address_of(s),
{
    let p = pieces(s, ':');
    let q = pieces(text::lowered(s), ':');
    pieces_of_lowered(s);
    assert forall|i: int| 0 <= i < p.len() implies #[trigger] text::hex_byte(q[i])
        == text::hex_byte(p[i]) by {
        assert(q[i] == text::lowered(p[i]));
        hex_number_of_lowered(p[i]);
        if p[i].len() > 0 {
            hex_number_of_lowered(p[i].skip(1));
            assert(q[i].skip(1) =~= text::lowered(p[i].skip(1)));
        }
    }
    if p.len() == 6 {
        assert(Seq::new(6, |i: int| text::hex_byte(q[i])->0) =~= Seq::new(
            6,
            |i: int| text::hex_byte(p[i])->0,
        ));
        if address_of(s) is Some {
            assert forall|i: int| 0 <= i < 6 implies (#[trigger] text::hex_byte(q[i])) is Some by {
                assert(text::hex_byte(p[i]) is Some);
            }
        }
        if address_of(text::lowered(s)) is Some {
            assert forall|i: int| 0 <= i < 6 implies (#[trigger] text::hex_byte(p[i])) is Some by {
                assert(text::hex_byte(q[i]) is Some);
            }
        }
    }
}

/// The sixteen bytes that the 32 characters of `s` spell, two for each.
pub open spec fn key_of(s: Seq<char>) -> Option<Seq<u8>> {
    if s.len() == 32 && (forall|i: int|
        0 <= i < 16 ==> (#[trigger] text::hex_byte(s.subrange(2 * i, 2 * i + 2))) is Some) {
        Some(Seq::new(16, |i: int| text::hex_byte(s.subrange(2 * i, 2 * i + 2))->0))
    } else {
        None
    }
}

/// Parse a key out of some characters.
fn read_key(s: &[char]) -> (r: Option<[u8; 16]>)
    ensures
        match r {
            Some(k) => key_of(s@) == Some(k@),
            None => key_of(s@) is None,
        },
{
    if s.len() != 32 {
        return None;
    }
    let mut k: [u8; 16] = [0; 16];
    let mut i: usize = 0;
    while i < 16
        invariant
            i <= 16,
            s@.len() == 32,
            forall|j: int|
                0 <= j < i ==> (#[trigger] text::hex_byte(s@.subrange(2 * j, 2 * j + 2))) == Some(
                    k@[j],
                ),
        decreases 16 - i,
    {
        match parse_hex_byte(vstd::slice::slice_subrange(s, 2 * i, 2 * i + 2)) {
            Some(b) => {
                k[i] = b;
            },
            None => {
                assert(text::hex_byte(s@.subrange(2 * i as int, 2 * i as int + 2)) is None);
                return None;
            },
        }
        i += 1;
    }
    assert(k@ =~= Seq::new(16, |j: int| text::hex_byte(s@.subrange(2 * j, 2 * j + 2))->0));
    Some(k)
}

/// Parse a key in its text form. The length is checked, so that a truncated line
/// cannot yield a partial key.
pub fn parse_key(s: &str) -> (r: Option<[u8; 16]>)
    ensures
        match r {
            Some(k) => key_of(s@) == Some(k@),
            None => key_of(s@) is None,
        },
{
    let v = chars_of(s);
    read_key(v.as_slice())
}

/// A key survives its text byte for byte.
pub proof fn a_key_round_trips(k: Seq<u8>)
    requires
        k.len() == 16,
    ensures
        key_of(text::hex_of(k)) == Some(k),
        text::hex_of(k).len() == 32,
{
    let s = text::hex_of(k);
    text::hex_of_by_index(k);
    assert forall|i: int| 0 <= i < 16 implies (#[trigger] text::hex_byte(
        s.subrange(2 * i, 2 * i + 2),
    )) == Some(k[i]) by {
        assert(s.subrange(2 * i, 2 * i + 2) == text::hex2(k[i]));
        text::hex2_reads_back(k[i]);
    }
    assert(Seq::new(16, |i: int| text::hex_byte(s.subrange(2 * i, 2 * i + 2))->0) =~= k);
}

/// One paired controller.
#[derive(Debug, Clone, PartialEq, Eq)]
pub struct Pairing {
    pub key: [u8; 16],
    /// The controller's own friendly name, captured when it was paired: asking for it
    /// takes a radio conversation, which is impossible while it is switched off.
    pub name: Option<String>,
    /// The dongle this bond was made with, when it is known. A key is worthless to
    /// any other adapter.
    pub adapter: Option<[u8; 6]>,
}

/// A [`Pairing`] with its arrays as sequences and its name as characters.
#[verifier::ext_equal]
pub struct PairingView {
    pub key: Seq<u8>,
    pub name: Option<Seq<char>>,
    pub adapter: Option<Seq<u8>>,
}

/// A name by its characters.
pub open spec fn name_view(name: Option<String>) -> Option<Seq<char>> {
    match name {
        Some(n) => Some(n@),
        None => None,
    }
}

/// An address by its bytes.
pub open spec fn adapter_view(adapter: Option<[u8; 6]>) -> Option<Seq<u8>> {
    match adapter {
        Some(a) => Some(a@),
        None => None,
    }
}

impl View for Pairing {
    type V = PairingView;

    open spec fn view(&self) -> PairingView {
        PairingView {
            key: self.key@,
            name: name_view(self.name),
            adapter: adapter_view(self.adapter),
        }
    }
}

/// A copy of a pairing.
fn copy_pairing(p: &Pairing) -> (r: Pairing)
    ensures
        r@ == p@,
{
    let name = match &p.name {
        Some(n) => Some(n.clone()),
        None => None,
    };
    Pairing { key: p.key, name, adapter: p.adapter }
}

/// The lines of a text. A line ends at a newline, with or without a carriage return
/// before it; the last one may end with the text.
pub open spec fn lines_of(s: Seq<char>) -> Seq<Seq<char>>
    decreases s.len(),
{
    let i = text::char_index(s, '\n') as int;
    if s.len() == 0 {
        seq![]
    } else if i >= s.len() {
        seq![s]
    } else {
        let end = if i > 0 && s[i - 1] == '\r' {
            i - 1
        } else {
            i
        };
        seq![s.take(end)] + lines_of(s.skip(i + 1))
    }
}

/// A name, where there is one.
pub open spec fn some_name(s: Seq<char>) -> Option<Seq<char>> {
    if s.len() == 0 {
        None
    } else {
        Some(s)
    }
}

/// Whether what follows a key begins with an adapter: behind an `@`, an address.
pub open spec fn tagged(rest: Seq<char>) -> bool {
    let tail = rest.skip(1);
    rest.len() > 0 && rest[0] == '@' && address_of(
        tail.take(text::white_index(tail) as int),
    ) is Some
}

/// What follows the key of a line says: behind an `@`, an address names the adapter, and
/// what follows it is the name. Anything else is the name.
pub open spec fn pairing_of(key: Seq<u8>, rest: Seq<char>) -> PairingView {
    let tail = rest.skip(1);
    let t = text::white_index(tail) as int;
    if tagged(rest) {
        PairingView {
            key,
            name: some_name(
                if t < tail.len() {
                    text::trimmed(tail.skip(t + 1))
                } else {
                    seq![]
                },
            ),
            adapter: address_of(tail.take(t)),
        }
    } else {
        PairingView { key, name: some_name(rest), adapter: None }
    }
}

/// What the words behind the address of a line say: a key, and what follows it. A word
/// that is no key, but one with an `@` before it, says that what follows is a name, though
/// it begins like an adapter; so no name is ever mistaken for one. Behind such a word there
/// must be a name that needs it.
pub open spec fn words_of(word: Seq<char>, rest: Seq<char>) -> Option<PairingView> {
    match key_of(word) {
        Some(key) => Some(pairing_of(key, rest)),
        None => if word.len() > 0 && word[0] == '@' && tagged(rest) {
            match key_of(word.skip(1)) {
                Some(key) => Some(PairingView { key, name: some_name(rest), adapter: None }),
                None => None,
            }
        } else {
            None
        },
    }
}

/// The device on a line and its pairing: an address, a key, and the rest of the line.
/// A line without an address or without a key is no entry.
pub open spec fn entry_of(line: Seq<char>) -> Option<(Seq<char>, PairingView)> {
    let i = text::white_index(line) as int;
    let after = line.skip(i + 1);
    let j = text::white_index(after) as int;
    let rest = if j < after.len() {
        text::trimmed(after.skip(j + 1))
    } else {
        seq![]
    };
    if i >= line.len() || address_of(line.take(i)) is None {
        None
    } else {
        match words_of(after.take(j), rest) {
            None => None,
            Some(p) => Some((text::lowered(line.take(i)), p)),
        }
    }
}

/// The pairings on some lines. A later line for the same device replaces an earlier
/// one; a line that is no entry costs nobody anything.
pub open spec fn entries_on(lines: Seq<Seq<char>>) -> Map<Seq<char>, PairingView>
    decreases lines.len(),
{
    if lines.len() == 0 {
        Map::empty()
    } else {
        let earlier = entries_on(lines.drop_last());
        match entry_of(lines.last()) {
            Some(e) => earlier.insert(e.0, e.1),
            None => earlier,
        }
    }
}

/// The pairings that a text holds.
pub open spec fn store_of(s: Seq<char>) -> Map<Seq<char>, PairingView> {
    entries_on(lines_of(s))
}

/// Whether `a` comes before `b` in a dictionary of code points.
pub open spec fn before(a: Seq<char>, b: Seq<char>) -> bool
    decreases a.len(),
{
    if b.len() == 0 {
        false
    } else if a.len() == 0 {
        true
    } else if a[0] != b[0] {
        (a[0] as u32) < (b[0] as u32)
    } else {
        before(a.skip(1), b.skip(1))
    }
}

/// Of two different texts one comes first, and then the other does not.
pub proof fn before_is_total(a: Seq<char>, b: Seq<char>)
    ensures
        a == b ==> !before(a, b),
        a != b ==> before(a, b) != before(b, a),
    decreases a.len(),
{
    if a.len() > 0 && b.len() > 0 {
        if a[0] == b[0] {
            before_is_total(a.skip(1), b.skip(1));
            assert(a =~= seq![a[0]] + a.skip(1));
            assert(b =~= seq![b[0]] + b.skip(1));
        } else {
            vstd::utf8::char_u32_cast(a[0], a[0] as u32);
            vstd::utf8::char_u32_cast(b[0], b[0] as u32);
            assert(a[0] as u32 != b[0] as u32);
        }
    } else if a.len() == 0 && b.len() == 0 {
        assert(a =~= b);
    }
}

/// What comes before something comes before what follows it.
pub proof fn before_is_transitive(a: Seq<char>, b: Seq<char>, c: Seq<char>)
    requires
        before(a, b),
        before(b, c),
    ensures
        before(a, c),
    decreases a.len(),
{
    if a.len() > 0 && a[0] == b[0] && b[0] == c[0] {
        before_is_transitive(a.skip(1), b.skip(1), c.skip(1));
    }
}

/// Whether `a` comes before `b`.
fn precedes(a: &[char], b: &[char]) -> (r: bool)
    ensures
        r == before(a@, b@),
{
    let mut i: usize = 0;
    assert(a@.skip(0) =~= a@);
    assert(b@.skip(0) =~= b@);
    while i < a.len() && i < b.len() && a[i] == b[i]
        invariant
            i <= a@.len(),
            i <= b@.len(),
            before(a@, b@) == before(a@.skip(i as int), b@.skip(i as int)),
        decreases a@.len() - i,
    {
        assert(a@.skip(i as int).skip(1) =~= a@.skip(i + 1));
        assert(b@.skip(i as int).skip(1) =~= b@.skip(i + 1));
        i += 1;
    }
    if i >= b.len() {
        false
    } else if i >= a.len() {
        true
    } else {
        (a[i] as u32) < (b[i] as u32)
    }
}

/// Whether a text can be the first word of a line, in the case that lines are read in.
pub open spec fn plain_word(a: Seq<char>) -> bool {
    &&& forall|j: int| 0 <= j < a.len() ==> !text::is_white(#[trigger] a[j])
    &&& text::lowered(a) == a
}

/// Whether a text is an address that can be the first word of a line.
pub open spec fn plain_address(a: Seq<char>) -> bool {
    plain_word(a) && address_of(a) is Some
}

/// Whether `l` lists pairings in the order of their addresses, none twice.
pub open spec fn well_listed(l: Seq<(Seq<char>, PairingView)>) -> bool {
    &&& forall|i: int, j: int| 0 <= i < j < l.len() ==> before(#[trigger] l[i].0, #[trigger] l[j].0)
    &&& forall|i: int|
        0 <= i < l.len() ==> plain_address((#[trigger] l[i]).0) && l[i].1.key.len() == 16 && (
        l[i].1.adapter is Some ==> l[i].1.adapter->0.len() == 6)
}

/// The pairings of a list by their addresses.
pub open spec fn by_address(l: Seq<(Seq<char>, PairingView)>) -> Map<Seq<char>, PairingView>
    decreases l.len(),
{
    if l.len() == 0 {
        Map::empty()
    } else {
        by_address(l.drop_last()).insert(l.last().0, l.last().1)
    }
}

/// In a list without repetition each address leads to its own pairing.
proof fn by_address_finds(l: Seq<(Seq<char>, PairingView)>)
    requires
        forall|i: int, j: int|
            0 <= i < j < l.len() ==> (#[trigger] l[i]).0 != (#[trigger] l[j]).0,
    ensures
        forall|i: int|
            0 <= i < l.len() ==> by_address(l).dom().contains((#[trigger] l[i]).0) && by_address(
                l,
            )[l[i].0] == l[i].1,
        forall|k: Seq<char>| #[trigger]
            by_address(l).dom().contains(k) ==> exists|i: int|
                0 <= i < l.len() && (#[trigger] l[i]).0 == k,
    decreases l.len(),
{
    if l.len() > 0 {
        let p = l.drop_last();
        by_address_finds(p);
        assert forall|i: int| 0 <= i < l.len() implies by_address(l).dom().contains(
            (#[trigger] l[i]).0,
        ) && by_address(l)[l[i].0] == l[i].1 by {
            if i < p.len() {
                assert(p[i] == l[i]);
                assert(l[i].0 != l[l.len() - 1].0);
            }
        }
        assert forall|k: Seq<char>| #[trigger] by_address(l).dom().contains(k) implies exists|
            i: int,
        |
            0 <= i < l.len() && (#[trigger] l[i]).0 == k by {
            if k == l.last().0 {
                assert(l[l.len() - 1].0 == k);
            } else {
                assert(by_address(p).dom().contains(k));
                let i = choose|i: int| 0 <= i < p.len() && (#[trigger] p[i]).0 == k;
                assert(l[i].0 == k);
            }
        }
    }
}

/// A list in order holds no address twice.
proof fn well_listed_distinct(l: Seq<(Seq<char>, PairingView)>)
    requires
        well_listed(l),
    ensures
        forall|i: int, j: int|
            0 <= i < j < l.len() ==> (#[trigger] l[i]).0 != (#[trigger] l[j]).0,
{
    assert forall|i: int, j: int| 0 <= i < j < l.len() implies (#[trigger] l[i]).0 != (
    #[trigger] l[j]).0 by {
        assert(before(l[i].0, l[j].0));
        before_is_total(l[i].0, l[j].0);
    }
}

/// A map with exactly the entries of a list is that list by address.
proof fn by_address_is(l: Seq<(Seq<char>, PairingView)>, m: Map<Seq<char>, PairingView>)
    requires
        well_listed(l),
        forall|i: int|
            0 <= i < l.len() ==> m.dom().contains((#[trigger] l[i]).0) && m[l[i].0] == l[i].1,
        forall|k: Seq<char>| #[trigger]
            m.dom().contains(k) ==> exists|i: int| 0 <= i < l.len() && (#[trigger] l[i]).0 == k,
    ensures
        by_address(l) == m,
{
    well_listed_distinct(l);
    by_address_finds(l);
    let b = by_address(l);
    assert forall|k: Seq<char>| b.dom().contains(k) == m.dom().contains(k) by {
        if b.dom().contains(k) {
            let i = choose|i: int| 0 <= i < l.len() && (#[trigger] l[i]).0 == k;
            assert(m.dom().contains(l[i].0));
        }
        if m.dom().contains(k) {
            let i = choose|i: int| 0 <= i < l.len() && (#[trigger] l[i]).0 == k;
            assert(b.dom().contains(l[i].0));
        }
    }
    assert forall|k: Seq<char>| b.dom().contains(k) implies b[k] == m[k] by {
        let i = choose|i: int| 0 <= i < l.len() && (#[trigger] l[i]).0 == k;
        assert(b[l[i].0] == m[l[i].0]);
    }
    assert(b =~= m);
}

/// The entries of a store, each by its view.
pub open spec fn listing_of(e: Seq<(String, Pairing)>) -> Seq<(Seq<char>, PairingView)> {
    e.map_values(|x: (String, Pairing)| (x.0@, x.1@))
}

/// Every stored pairing, keyed by lower-case colon-separated address.
#[derive(Debug)]
pub struct Store {
    entries: Vec<(String, Pairing)>,
}

impl Store {
    /// The pairings in the order in which they are written.
    pub closed spec fn listing(&self) -> Seq<(Seq<char>, PairingView)> {
        listing_of(self.entries@)
    }

    #[verifier::type_invariant]
    spec fn in_order(&self) -> bool {
        well_listed(listing_of(self.entries@))
    }
}

impl View for Store {
    type V = Map<Seq<char>, PairingView>;

    open spec fn view(&self) -> Map<Seq<char>, PairingView> {
        by_address(self.listing())
    }
}

/// Where an address stands, or would stand, among the entries of a store.
fn place_of(entries: &Vec<(String, Pairing)>, addr: &str) -> (p: usize)
    requires
        well_listed(listing_of(entries@)),
    ensures
        p <= entries@.len(),
        forall|j: int| 0 <= j < p ==> before((#[trigger] entries@[j]).0@, addr@),
        p < entries@.len() ==> !before(entries@[p as int].0@, addr@),
{
    let a = chars_of(addr);
    let mut p: usize = 0;
    while p < entries.len()
        invariant
            p <= entries@.len(),
            a@ == addr@,
            forall|j: int| 0 <= j < p ==> before((#[trigger] entries@[j]).0@, addr@),
        ensures
            p <= entries@.len(),
            forall|j: int| 0 <= j < p ==> before((#[trigger] entries@[j]).0@, addr@),
            p < entries@.len() ==> !before(entries@[p as int].0@, addr@),
        decreases entries@.len() - p,
    {
        let e = chars_of(entries[p].0.as_str());
        if !precedes(e.as_slice(), a.as_slice()) {
            break;
        }
        p += 1;
    }
    p
}

/// An address is among the entries exactly where it should stand.
proof fn place_decides(entries: Seq<(String, Pairing)>, addr: Seq<char>, p: int)
    requires
        well_listed(listing_of(entries)),
        0 <= p <= entries.len(),
        forall|j: int| 0 <= j < p ==> before((#[trigger] entries[j]).0@, addr),
        p < entries.len() ==> !before(entries[p].0@, addr),
    ensures
        forall|j: int| p <= j < entries.len() ==> !before((#[trigger] entries[j]).0@, addr),
        forall|j: int|
            0 <= j < entries.len() && j != p ==> (#[trigger] entries[j]).0@ != addr,
        by_address(listing_of(entries)).dom().contains(addr) <==> p < entries.len()
            && entries[p].0@ == addr,
        p < entries.len() && entries[p].0@ == addr ==> by_address(listing_of(entries))[addr]
            == entries[p].1@,
{
    let l = listing_of(entries);
    assert forall|j: int| p <= j < entries.len() implies !before((#[trigger] entries[j]).0@, addr)
        && (j != p ==> entries[j].0@ != addr) by {
        before_is_total(l[p].0, addr);
        if j > p {
            assert(before(l[p].0, l[j].0));
            before_is_total(l[j].0, addr);
            before_is_total(l[p].0, l[j].0);
            if before(l[j].0, addr) {
                before_is_transitive(l[p].0, l[j].0, addr);
            }
        }
    }
    assert forall|j: int| 0 <= j < entries.len() && j != p implies (#[trigger] entries[j]).0@
        != addr by {
        before_is_total(entries[j].0@, addr);
    }
    well_listed_distinct(l);
    by_address_finds(l);
    if p < entries.len() && entries[p].0@ == addr {
        assert(l[p].0 == addr);
    }
    if by_address(l).dom().contains(addr) {
        let i = choose|i: int| 0 <= i < l.len() && (#[trigger] l[i]).0 == addr;
        assert(entries[i].0@ == addr);
    }
}

/// Enter a pairing among the entries of a store.
fn enter(entries: &mut Vec<(String, Pairing)>, addr: String, pairing: Pairing)
    requires
        well_listed(listing_of(old(entries)@)),
        plain_address(addr@),
    ensures
        well_listed(listing_of(final(entries)@)),
        by_address(listing_of(final(entries)@)) == by_address(listing_of(old(entries)@)).insert(
            addr@,
            pairing@,
        ),
{
    let p: usize = place_of(entries, addr.as_str());
    let ghost was = entries@;
    let ghost l = listing_of(was);
    let ghost x = (addr@, pairing@);
    let ghost m = by_address(l).insert(x.0, x.1);
    proof {
        place_decides(was, x.0, p as int);
        well_listed_distinct(l);
        by_address_finds(l);
    }
    if p < entries.len() && entries[p].0 == addr {
        entries.set(p, (addr, pairing));
        let ghost n = listing_of(entries@);
        proof {
            assert(n =~= l.update(p as int, x));
            assert forall|i: int, j: int| 0 <= i < j < n.len() implies before(
                #[trigger] n[i].0,
                #[trigger] n[j].0,
            ) by {
                assert(before(l[i].0, l[j].0));
            }
            assert forall|i: int| 0 <= i < n.len() implies plain_address((#[trigger] n[i]).0)
                && n[i].1.key.len() == 16 && (n[i].1.adapter is Some ==> n[i].1.adapter->0.len()
                == 6) by {
                if i != p {
                    assert(n[i] == l[i]);
                }
            }
            assert forall|i: int| 0 <= i < n.len() implies m.dom().contains((#[trigger] n[i]).0)
                && m[n[i].0] == n[i].1 by {
                if i != p {
                    assert(n[i] == l[i]);
                    assert(was[i].0@ != x.0);
                }
            }
            assert forall|k: Seq<char>| #[trigger] m.dom().contains(k) implies exists|i: int|
                0 <= i < n.len() && (#[trigger] n[i]).0 == k by {
                if k == x.0 {
                    assert(n[p as int].0 == k);
                } else {
                    let i = choose|i: int| 0 <= i < l.len() && (#[trigger] l[i]).0 == k;
                    assert(n[i].0 == k);
                }
            }
            by_address_is(n, m);
        }
    } else {
        entries.insert(p, (addr, pairing));
        let ghost n = listing_of(entries@);
        proof {
            assert(n =~= l.insert(p as int, x));
            assert forall|i: int, j: int| 0 <= i < j < n.len() implies before(
                #[trigger] n[i].0,
                #[trigger] n[j].0,
            ) by {
                let a = if i < p { i } else { i - 1 };
                let b = if j < p { j } else { j - 1 };
                if i == p {
                    assert(n[j] == l[b]);
                    assert(!before(was[b].0@, x.0));
                    before_is_total(was[b].0@, x.0);
                    if b == p {
                        assert(was[p as int].0@ != x.0);
                    }
                } else if j == p {
                    assert(n[i] == l[a]);
                    assert(before(was[a].0@, x.0));
                } else {
                    assert(n[i] == l[a]);
                    assert(n[j] == l[b]);
                    assert(before(l[a].0, l[b].0));
                }
            }
            assert forall|i: int| 0 <= i < n.len() implies plain_address((#[trigger] n[i]).0)
                && n[i].1.key.len() == 16 && (n[i].1.adapter is Some ==> n[i].1.adapter->0.len()
                == 6) by {
                if i < p {
                    assert(n[i] == l[i]);
                } else if i > p {
                    assert(n[i] == l[i - 1]);
                }
            }
            assert forall|i: int| 0 <= i < n.len() implies m.dom().contains((#[trigger] n[i]).0)
                && m[n[i].0] == n[i].1 by {
                if i < p {
                    assert(n[i] == l[i]);
                    assert(was[i].0@ != x.0);
                } else if i > p {
                    assert(n[i] == l[i - 1]);
                    assert(was[i - 1].0@ != x.0);
                }
            }
            assert forall|k: Seq<char>| #[trigger] m.dom().contains(k) implies exists|i: int|
                0 <= i < n.len() && (#[trigger] n[i]).0 == k by {
                if k == x.0 {
                    assert(n[p as int].0 == k);
                } else {
                    let i = choose|i: int| 0 <= i < l.len() && (#[trigger] l[i]).0 == k;
                    if i < p {
                        assert(n[i].0 == k);
                    } else {
                        assert(n[i + 1].0 == k);
                    }
                }
            }
            by_address_is(n, m);
        }
    }
}

/// The first word of a line, in lower case, is a plain word, and an address where it was
/// one.
proof fn first_word_is_plain(line: Seq<char>)
    ensures
        plain_word(text::lowered(line.take(text::white_index(line) as int))),
        address_of(text::lowered(line.take(text::white_index(line) as int))) == address_of(
            line.take(text::white_index(line) as int),
        ),
{
    the_case_of_an_address_does_not_matter(line.take(text::white_index(line) as int));
    let p = |c: char| text::is_white(c);
    text::index_where_is_first(line, p);
    let w = line.take(text::white_index(line) as int);
    let l = text::lowered(w);
    assert forall|j: int| 0 <= j < l.len() implies !text::is_white(#[trigger] l[j]) && text::lower(
        l[j],
    ) == l[j] by {
        assert(!p(line[j]));
        assert(l[j] == text::lower(line[j]));
    }
    assert(text::lowered(l) =~= l);
}

/// Look whether what follows a key begins with an adapter.
fn is_tagged(rest: &[char]) -> (r: bool)
    ensures
        r == tagged(rest@),
{
    if rest.len() == 0 || rest[0] != '@' {
        return false;
    }
    let tail = vstd::slice::slice_subrange(rest, 1, rest.len());
    assert(tail@ =~= rest@.skip(1));
    let t: usize = find_white(tail);
    let word = vstd::slice::slice_subrange(tail, 0, t);
    assert(word@ =~= tail@.take(t as int));
    read_addr(word).is_some()
}

/// A name, where there is one.
fn read_name(s: &[char]) -> (r: Option<String>)
    ensures
        name_view(r) == some_name(s@),
{
    if s.len() > 0 {
        Some(string_of(s))
    } else {
        None
    }
}

/// Read what follows the key of a line.
fn read_rest(key: [u8; 16], rest: &[char]) -> (p: Pairing)
    ensures
        p@ == pairing_of(key@, rest@),
{
    if rest.len() > 0 && rest[0] == '@' {
        let tail = vstd::slice::slice_subrange(rest, 1, rest.len());
        assert(tail@ =~= rest@.skip(1));
        let t: usize = find_white(tail);
        let word = vstd::slice::slice_subrange(tail, 0, t);
        assert(word@ =~= tail@.take(t as int));
        if let Some(a) = read_addr(word) {
            let mut name: Option<String> = None;
            if t < tail.len() {
                let after = trim(vstd::slice::slice_subrange(tail, t + 1, tail.len()));
                assert(tail@.subrange(t + 1, tail@.len() as int) =~= tail@.skip(t + 1));
                name = read_name(after);
            }
            return Pairing { key, name, adapter: Some(a) };
        }
    }
    Pairing { key, name: read_name(rest), adapter: None }
}

/// Read the words behind the address of a line.
fn read_words(word: &[char], rest: &[char]) -> (r: Option<Pairing>)
    ensures
        match r {
            Some(p) => words_of(word@, rest@) == Some(p@),
            None => words_of(word@, rest@) is None,
        },
{
    match read_key(word) {
        Some(key) => Some(read_rest(key, rest)),
        None => if word.len() > 0 && word[0] == '@' && is_tagged(rest) {
            let digits = vstd::slice::slice_subrange(word, 1, word.len());
            assert(digits@ =~= word@.skip(1));
            match read_key(digits) {
                Some(key) => Some(Pairing { key, name: read_name(rest), adapter: None }),
                None => None,
            }
        } else {
            None
        },
    }
}

/// Read one line of the store.
fn read_line(line: &[char]) -> (r: Option<(String, Pairing)>)
    ensures
        match r {
            Some(e) => entry_of(line@) == Some((e.0@, e.1@)) && plain_address(e.0@),
            None => entry_of(line@) is None,
        },
{
    let i: usize = find_white(line);
    if i >= line.len() {
        return None;
    }
    let word = vstd::slice::slice_subrange(line, 0, i);
    assert(word@ =~= line@.take(i as int));
    if read_addr(word).is_none() {
        return None;
    }
    let after = vstd::slice::slice_subrange(line, i + 1, line.len());
    assert(after@ =~= line@.skip(i + 1));
    let j: usize = find_white(after);
    let second = vstd::slice::slice_subrange(after, 0, j);
    assert(second@ =~= after@.take(j as int));
    let rest = if j < after.len() {
        assert(after@.subrange(j + 1, after@.len() as int) =~= after@.skip(j + 1));
        trim(vstd::slice::slice_subrange(after, j + 1, after.len()))
    } else {
        vstd::slice::slice_subrange(after, j, j)
    };
    assert(j >= after@.len() ==> rest@ =~= seq![]);
    match read_words(second, rest) {
        None => None,
        Some(pairing) => {
            proof {
                first_word_is_plain(line@);
            }
            let lowered = to_lower(word);
            Some((string_of(lowered.as_slice()), pairing))
        },
    }
}

/// The pairings that the text of a store holds.
///
/// Junk lines are skipped rather than poisoning the whole store: the file is meant to
/// be edited by hand, so a stray blank or comment must not cost someone every other
/// pairing they have.
pub fn load(text: &str) -> (store: Store)
    ensures
        store@ == store_of(text@),
        well_listed(store.listing()),
{
    let all = chars_of(text);
    let mut entries: Vec<(String, Pairing)> = Vec::new();
    let mut rest: &[char] = all.as_slice();
    let ghost mut done: Seq<Seq<char>> = seq![];
    proof {
        assert(listing_of(entries@) =~= seq![]);
        assert(done + lines_of(rest@) =~= lines_of(text@));
    }
    while rest.len() > 0
        invariant
            done + lines_of(rest@) == lines_of(text@),
            well_listed(listing_of(entries@)),
            by_address(listing_of(entries@)) == entries_on(done),
        decreases rest@.len(),
    {
        let i: usize = find_char(rest, '\n');
        let end: usize = if i < rest.len() && i > 0 && rest[i - 1] == '\r' {
            i - 1
        } else {
            i
        };
        let line = vstd::slice::slice_subrange(rest, 0, end);
        let next = vstd::slice::slice_subrange(
            rest,
            if i < rest.len() {
                i + 1
            } else {
                i
            },
            rest.len(),
        );
        proof {
            assert(line@ =~= rest@.take(end as int));
            if i < rest@.len() {
                assert(next@ =~= rest@.skip(i + 1));
            } else {
                assert(line@ =~= rest@);
                assert(next@ =~= seq![]);
            }
            assert(done.push(line@) + lines_of(next@) =~= done + lines_of(rest@));
            assert(done.push(line@).drop_last() =~= done);
            done = done.push(line@);
        }
        if let Some(e) = read_line(line) {
            enter(&mut entries, e.0, e.1);
        }
        rest = next;
    }
    assert(done =~= lines_of(text@));
    Store { entries }
}

/// Look one address up.
pub fn get(store: &Store, addr: [u8; 6]) -> (r: Option<[u8; 16]>)
    ensures
        match r {
            Some(k) => store@.dom().contains(address_text(addr@)) && store@[address_text(
                addr@,
            )].key == k@,
            None => !store@.dom().contains(address_text(addr@)),
        },
{
    match pairing(store, addr) {
        Some(p) => Some(p.key),
        None => None,
    }
}

/// Look a whole pairing up.
pub fn pairing(store: &Store, addr: [u8; 6]) -> (r: Option<Pairing>)
    ensures
        match r {
            Some(p) => store@.dom().contains(address_text(addr@)) && store@[address_text(addr@)]
                == p@,
            None => !store@.dom().contains(address_text(addr@)),
        },
{
    proof {
        use_type_invariant(store);
    }
    let key = format_addr(addr);
    let p: usize = place_of(&store.entries, key.as_str());
    proof {
        place_decides(store.entries@, key@, p as int);
    }
    if p < store.entries.len() && store.entries[p].0 == key {
        Some(copy_pairing(&store.entries[p].1))
    } else {
        None
    }
}

/// The pairing that storing a key makes of what was stored. A name or an adapter that
/// is not given is kept: re-pairing does not lose a label that the user recognises.
pub open spec fn renewed(
    was: Map<Seq<char>, PairingView>,
    at: Seq<char>,
    key: Seq<u8>,
    name: Option<Seq<char>>,
    adapter: Option<Seq<u8>>,
) -> PairingView {
    PairingView {
        key,
        name: if name is None && was.dom().contains(at) {
            was[at].name
        } else {
            name
        },
        adapter: if adapter is None && was.dom().contains(at) {
            was[at].adapter
        } else {
            adapter
        },
    }
}

/// A text by its characters.
pub open spec fn str_view(name: Option<&str>) -> Option<Seq<char>> {
    match name {
        Some(n) => Some(n@),
        None => None,
    }
}

/// Store one key, keeping every other entry.
pub fn put(
    store: &mut Store,
    addr: [u8; 6],
    key: [u8; 16],
    name: Option<&str>,
    adapter: Option<[u8; 6]>,
)
    ensures
        final(store)@ == old(store)@.insert(
            address_text(addr@),
            renewed(
                old(store)@,
                address_text(addr@),
                key@,
                str_view(name),
                adapter_view(adapter),
            ),
        ),
        well_listed(final(store).listing()),
{
    let earlier = pairing(store, addr);
    let mut kept_name: Option<String> = None;
    let mut kept_adapter: Option<[u8; 6]> = None;
    if let Some(p) = earlier {
        kept_name = p.name;
        kept_adapter = p.adapter;
    }
    let new_name = match name {
        Some(n) => Some(n.to_owned()),
        None => kept_name,
    };
    let new_adapter = match adapter {
        Some(a) => Some(a),
        None => kept_adapter,
    };
    let p = Pairing { key, name: new_name, adapter: new_adapter };
    let at = format_addr(addr);
    proof {
        use_type_invariant(&*store);
        address_text_is_plain(addr@);
        an_address_round_trips(addr@);
    }
    let mut entries: Vec<(String, Pairing)> = Vec::new();
    assert(listing_of(entries@) =~= seq![]);
    std::mem::swap(&mut entries, &mut store.entries);
    enter(&mut entries, at, p);
    store.entries = entries;
}

/// Remove one device's key. Returns whether it was there.
///
/// This is only half the bond: the controller keeps its own copy and will still try to
/// reconnect.
pub fn forget(store: &mut Store, addr: [u8; 6]) -> (r: bool)
    ensures
        r == old(store)@.dom().contains(address_text(addr@)),
        final(store)@ == old(store)@.remove(address_text(addr@)),
        well_listed(final(store).listing()),
{
    proof {
        use_type_invariant(&*store);
    }
    let at = format_addr(addr);
    let p: usize = place_of(&store.entries, at.as_str());
    let ghost was = store.entries@;
    let ghost l = listing_of(was);
    let ghost m = by_address(l).remove(at@);
    proof {
        place_decides(was, at@, p as int);
        well_listed_distinct(l);
        by_address_finds(l);
    }
    if p < store.entries.len() && store.entries[p].0 == at {
        let mut entries: Vec<(String, Pairing)> = Vec::new();
        assert(listing_of(entries@) =~= seq![]);
        std::mem::swap(&mut entries, &mut store.entries);
        let _gone = entries.remove(p);
        let ghost n = listing_of(entries@);
        proof {
            assert(n =~= l.remove(p as int));
            assert forall|i: int, j: int| 0 <= i < j < n.len() implies before(
                #[trigger] n[i].0,
                #[trigger] n[j].0,
            ) by {
                let a = if i < p { i } else { i + 1 };
                let b = if j < p { j } else { j + 1 };
                assert(n[i] == l[a]);
                assert(n[j] == l[b]);
                assert(before(l[a].0, l[b].0));
            }
            assert forall|i: int| 0 <= i < n.len() implies plain_address((#[trigger] n[i]).0)
                && n[i].1.key.len() == 16 && (n[i].1.adapter is Some ==> n[i].1.adapter->0.len()
                == 6) && m.dom().contains(n[i].0) && m[n[i].0] == n[i].1 by {
                let a = if i < p { i } else { i + 1 };
                assert(n[i] == l[a]);
                assert(was[a].0@ != at@);
            }
            assert forall|k: Seq<char>| #[trigger] m.dom().contains(k) implies exists|i: int|
                0 <= i < n.len() && (#[trigger] n[i]).0 == k by {
                let i = choose|i: int| 0 <= i < l.len() && (#[trigger] l[i]).0 == k;
                if i < p {
                    assert(n[i].0 == k);
                } else {
                    assert(n[i - 1].0 == k);
                }
            }
            by_address_is(n, m);
        }
        store.entries = entries;
        true
    } else {
        assert(by_address(l).remove(at@) =~= by_address(l));
        false
    }
}

/// How many pairings there are.
pub fn count(store: &Store) -> (n: usize)
    ensures
        n == store.listing().len(),
{
    store.entries.len()
}

/// Every pairing with its address, in the order of the addresses.
pub fn entries(store: &Store) -> (e: &Vec<(String, Pairing)>)
    ensures
        listing_of(e@) == store.listing(),
        well_listed(store.listing()),
{
    proof {
        use_type_invariant(store);
    }
    &store.entries
}

/// `name` on one line: a newline would split one entry into two unreadable ones.
pub open spec fn one_line(name: Seq<char>) -> Seq<char> {
    name.map_values(
        |c: char|
            if c == '\n' || c == '\r' {
                ' '
            } else {
                c
            },
    )
}

/// A name as it is read back: on one line, without the white space around it.
pub open spec fn tidy_name(n: Seq<char>) -> Seq<char> {
    text::trimmed(one_line(n))
}

/// What follows the key on the line of a pairing.
pub open spec fn rest_text(p: PairingView) -> Seq<char> {
    (match p.adapter {
        Some(a) => seq![' ', '@'] + address_text(a),
        None => seq![],
    }) + (match p.name {
        Some(n) => seq![' '] + one_line(n),
        None => seq![],
    })
}

/// Whether the name of a pairing would be read as an adapter: none is known, and the name
/// begins like one.
pub open spec fn mistakable(p: PairingView) -> bool {
    p.adapter is None && (p.name matches Some(n) && tagged(tidy_name(n)))
}

/// The line of a pairing. An `@` before the key keeps a name from being mistaken for an
/// adapter.
pub open spec fn line_text(e: (Seq<char>, PairingView)) -> Seq<char> {
    e.0 + seq![' '] + key_text(e.1) + rest_text(e.1)
}

/// The key on the line of a pairing.
pub open spec fn key_text(p: PairingView) -> Seq<char> {
    if mistakable(p) {
        seq!['@'] + text::hex_of(p.key)
    } else {
        text::hex_of(p.key)
    }
}

/// The text of a list of pairings: a line for each.
pub open spec fn store_text(l: Seq<(Seq<char>, PairingView)>) -> Seq<char>
    decreases l.len(),
{
    if l.len() == 0 {
        seq![]
    } else {
        store_text(l.drop_last()) + line_text(l.last()) + seq!['\n']
    }
}

/// Append a name, on one line.
fn push_one_line(out: &mut String, name: &str)
    ensures
        final(out)@ == old(out)@ + one_line(name@),
{
    let v = chars_of(name);
    let mut i: usize = 0;
    assert(out@ =~= old(out)@ + one_line(v@.take(0)));
    while i < v.len()
        invariant
            i <= v@.len(),
            out@ == old(out)@ + one_line(v@.take(i as int)),
        decreases v@.len() - i,
    {
        let c: char = v[i];
        if c == '\n' || c == '\r' {
            out.push(' ');
        } else {
            out.push(c);
        }
        i += 1;
        assert(out@ =~= old(out)@ + one_line(v@.take(i as int)));
    }
    assert(v@.take(i as int) =~= v@);
}

/// Look whether the name of a pairing would be read as an adapter.
fn is_mistakable(p: &Pairing) -> (r: bool)
    ensures
        r == mistakable(p@),
{
    if p.adapter.is_some() {
        return false;
    }
    match &p.name {
        Some(n) => {
            let mut flat = String::new();
            push_one_line(&mut flat, n.as_str());
            assert(flat@ =~= one_line(n@));
            let all = chars_of(flat.as_str());
            is_tagged(trim(all.as_slice()))
        },
        None => false,
    }
}

/// Append the line of a pairing.
fn push_line(out: &mut String, addr: &str, p: &Pairing)
    ensures
        final(out)@ == old(out)@ + line_text((addr@, p@)) + seq!['\n'],
{
    let ghost start = out@;
    push_text(out, addr);
    out.push(' ');
    if is_mistakable(p) {
        out.push('@');
    }
    push_hex(out, p.key.as_slice());
    assert(out@ =~= start + (addr@ + seq![' '] + key_text(p@)));
    let ghost mid = out@;
    if let Some(a) = p.adapter {
        out.push(' ');
        out.push('@');
        let t = format_addr(a);
        push_text(out, t.as_str());
        assert(out@ =~= mid + (seq![' ', '@'] + address_text(a@)));
    } else {
        assert(out@ =~= mid + seq![]);
    }
    let ghost late = out@;
    if let Some(n) = &p.name {
        out.push(' ');
        push_one_line(out, n.as_str());
        assert(out@ =~= late + (seq![' '] + one_line(n@)));
    } else {
        assert(out@ =~= late + seq![]);
    }
    assert(out@ =~= mid + rest_text(p@));
    out.push('\n');
    assert(out@ =~= start + line_text((addr@, p@)) + seq!['\n']);
}

/// Serialise the whole store.
pub fn write_all(store: &Store) -> (out: String)
    ensures
        out@ == store_text(store.listing()),
{
    let mut out = String::new();
    let mut i: usize = 0;
    let ghost l = store.listing();
    assert(l.take(0) =~= seq![]);
    assert(out@ =~= store_text(l.take(0)));
    while i < store.entries.len()
        invariant
            i <= store.entries@.len(),
            l == listing_of(store.entries@),
            out@ == store_text(l.take(i as int)),
        decreases store.entries@.len() - i,
    {
        let e = &store.entries[i];
        push_line(&mut out, e.0.as_str(), &e.1);
        i += 1;
        assert(l.take(i as int).drop_last() =~= l.take(i - 1));
        assert(l.take(i as int).last() == l[i - 1]);
        assert(out@ =~= store_text(l.take(i as int)));
    }
    assert(l.take(i as int) =~= l);
    out
}

/// A line without a newline in it, ended by one, comes first; unless it ends in a
/// carriage return, it is unchanged.
proof fn lines_step(line: Seq<char>, rest: Seq<char>)
    requires
        forall|j: int| 0 <= j < line.len() ==> #[trigger] line[j] != '\n' && line[j] != '\r',
    ensures
        lines_of(line + seq!['\n'] + rest) == seq![line] + lines_of(rest),
{
    let s = line + seq!['\n'] + rest;
    assert forall|j: int| 0 <= j < line.len() implies !text::is_char('\n')(#[trigger] s[j]) by {
        assert(s[j] == line[j]);
    }
    text::index_where_unique(s, text::is_char('\n'), line.len() as int);
    if line.len() > 0 {
        assert(s[line.len() - 1] == line[line.len() - 1]);
    }
    assert(s.take(line.len() as int) =~= line);
    assert(s.skip(line.len() as int + 1) =~= rest);
}

/// The line of a pairing holds neither a newline nor a carriage return.
proof fn line_text_is_one_line(e: (Seq<char>, PairingView))
    requires
        plain_address(e.0),
    ensures
        forall|j: int|
            0 <= j < line_text(e).len() ==> #[trigger] line_text(e)[j] != '\n' && line_text(e)[j]
                != '\r',
{
    let t = line_text(e);
    let h = key_text(e.1);
    let r = rest_text(e.1);
    text::hex_of_by_index(e.1.key);
    assert forall|j: int| 0 <= j < h.len() implies #[trigger] h[j] != '\n' && h[j] != '\r' by {
        if mistakable(e.1) {
            if j > 0 {
                assert(h[j] == text::hex_of(e.1.key)[j - 1]);
            }
        }
    }
    assert forall|j: int| 0 <= j < r.len() implies #[trigger] r[j] != '\n' && r[j] != '\r' by {
        let a = match e.1.adapter {
            Some(a) => seq![' ', '@'] + address_text(a),
            None => seq![],
        };
        if j < a.len() {
            if j >= 2 {
                address_text_is_plain(e.1.adapter->0);
                assert(r[j] == address_text(e.1.adapter->0)[j - 2]);
            } else {
                assert(r[j] == a[j]);
            }
        } else if j > a.len() {
            assert(r[j] == one_line(e.1.name->0)[j - a.len() - 1]);
        }
    }
    assert forall|j: int| 0 <= j < t.len() implies #[trigger] t[j] != '\n' && t[j] != '\r' by {
        let n = e.0.len() as int;
        if j < n {
            assert(t[j] == e.0[j]);
        } else if j > n && j < n + 1 + h.len() {
            assert(t[j] == h[j - n - 1]);
        } else if j >= n + 1 + h.len() {
            assert(t[j] == r[j - n - 1 - h.len()]);
        }
    }
}

/// What follows the key on the line of a pairing, as it is read.
pub open spec fn rest_read(p: PairingView) -> Seq<char> {
    if rest_text(p).len() > 0 {
        text::trimmed(rest_text(p).skip(1))
    } else {
        seq![]
    }
}

/// The line of a pairing is read as its address and what its words say.
proof fn a_line_is_read(e: (Seq<char>, PairingView))
    requires
        plain_address(e.0),
        e.1.key.len() == 16,
        e.1.adapter matches Some(a) ==> a.len() == 6,
    ensures
        entry_of(line_text(e)) == Some((e.0, kept(e.1))),
{
    let p = |c: char| text::is_white(c);
    let line = line_text(e);
    let h = key_text(e.1);
    let r = rest_text(e.1);
    let n = e.0.len() as int;
    let k = h.len() as int;
    text::hex_of_by_index(e.1.key);
    assert forall|j: int| 0 <= j < n implies !p(#[trigger] line[j]) by {
        assert(line[j] == e.0[j]);
    }
    assert(line[n] == ' ');
    text::index_where_unique(line, p, n);
    let after = line.skip(n + 1);
    assert(after =~= h + r);
    assert forall|j: int| 0 <= j < k implies !p(#[trigger] after[j]) by {
        assert(after[j] == h[j]);
        if mistakable(e.1) && j > 0 {
            assert(h[j] == text::hex_of(e.1.key)[j - 1]);
        }
    }
    if r.len() > 0 {
        assert(after[k] == r[0]);
        assert(r[0] == ' ');
    }
    text::index_where_unique(after, p, k);
    assert(after.take(k) =~= h);
    assert(line.take(n) =~= e.0);
    if r.len() > 0 {
        assert(after.skip(k + 1) =~= r.skip(1));
    }
    the_words_come_back(e.1);
}

/// Whether a name is kept as it is: it is not empty, has no white space around it and no
/// line break in it.
pub open spec fn storable(p: PairingView) -> bool {
    p.name matches Some(n) ==> n.len() > 0 && tidy_name(n) == n
}

/// A pairing as its line keeps it: everything, but for line breaks in its name and white
/// space around it.
pub open spec fn kept(p: PairingView) -> PairingView {
    PairingView {
        name: match p.name {
            Some(n) => some_name(tidy_name(n)),
            None => None,
        },
        ..p
    }
}

/// Behind an adapter a name comes back, whatever it looks like.
proof fn a_name_behind_an_adapter_comes_back(p: PairingView)
    requires
        p.adapter matches Some(a) && a.len() == 6,
    ensures
        pairing_of(p.key, rest_read(p)) == kept(p),
{
    let w = |c: char| text::is_white(c);
    let a = p.adapter->0;
    let t = address_text(a);
    let n = t.len() as int;
    let body = rest_text(p).skip(1);
    address_text_is_plain(a);
    an_address_round_trips(a);
    let rest = text::trimmed(body);
    let o = match p.name {
        Some(n) => one_line(n),
        None => seq![],
    };
    let b = text::trimmed_bounds(o);
    assert forall|j: int| 0 <= j < n implies body[j + 1] == t[j] by {}
    assert(body[0] == '@');
    assert(body[n] == t[n - 1]);
    if b.0 == b.1 {
        assert forall|j: int| n + 1 <= j < body.len() implies text::is_white(
            #[trigger] body[j],
        ) by {
            if j > n + 1 {
                assert(body[j] == o[j - n - 2]);
            }
        }
        text::trimmed_is(body, 0, n + 1);
        assert(rest.skip(1) =~= t);
        assert forall|j: int| 0 <= j < n implies !w(#[trigger] t[j]) by {}
        text::index_where_unique(t, w, n);
        assert(t.take(n) =~= t);
        assert(text::trimmed(o) =~= seq![]);
    } else {
        let end = n + 2 + b.1;
        assert(body =~= seq!['@'] + t + seq![' '] + o);
        assert forall|j: int| end <= j < body.len() implies text::is_white(#[trigger] body[j]) by {
            assert(body[j] == o[j - n - 2]);
        }
        assert(body[end - 1] == o[b.1 - 1]);
        text::trimmed_is(body, 0, end);
        let tail = rest.skip(1);
        assert(tail =~= t + seq![' '] + o.take(b.1));
        assert forall|j: int| 0 <= j < n implies !w(#[trigger] tail[j]) by {
            assert(tail[j] == t[j]);
        }
        assert(tail[n] == ' ');
        text::index_where_unique(tail, w, n);
        assert(tail.take(n) =~= t);
        assert(tail.skip(n + 1) =~= o.take(b.1));
        text::trimmed_is(o.take(b.1), b.0, b.1);
        assert(o.take(b.1).subrange(b.0, b.1) =~= o.subrange(b.0, b.1));
    }
}

/// A pairing comes back from the words of its line as the line keeps it, whatever its name
/// looks like.
proof fn the_words_come_back(p: PairingView)
    requires
        p.key.len() == 16,
        p.adapter matches Some(a) ==> a.len() == 6,
    ensures
        words_of(key_text(p), rest_read(p)) == Some(kept(p)),
        storable(p) ==> kept(p) == p,
{
    let h = text::hex_of(p.key);
    let r = rest_text(p);
    a_key_round_trips(p.key);
    if mistakable(p) {
        assert(key_text(p).skip(1) =~= h);
    }
    match (p.adapter, p.name) {
        (Some(_), _) => {
            a_name_behind_an_adapter_comes_back(p);
        },
        (None, None) => {
            assert(r =~= seq![]);
        },
        (None, Some(n)) => {
            assert(r.skip(1) =~= one_line(n));
        },
    }
}

/// The lines of the text of a list are the lines of its pairings.
proof fn lines_of_store_text(l: Seq<(Seq<char>, PairingView)>, rest: Seq<char>)
    requires
        well_listed(l),
    ensures
        lines_of(store_text(l) + rest) == l.map_values(
            |e: (Seq<char>, PairingView)| line_text(e),
        ) + lines_of(rest),
    decreases l.len(),
{
    let f = |e: (Seq<char>, PairingView)| line_text(e);
    if l.len() == 0 {
        assert(store_text(l) + rest =~= rest);
        assert(l.map_values(f) + lines_of(rest) =~= lines_of(rest));
    } else {
        let p = l.drop_last();
        let e = l.last();
        let more = line_text(e) + seq!['\n'] + rest;
        assert(e == l[l.len() - 1]);
        assert(well_listed(p)) by {
            assert forall|i: int, j: int| 0 <= i < j < p.len() implies before(
                #[trigger] p[i].0,
                #[trigger] p[j].0,
            ) by {
                assert(before(l[i].0, l[j].0));
            }
            assert forall|i: int| 0 <= i < p.len() implies plain_address((#[trigger] p[i]).0)
                && p[i].1.key.len() == 16 && (p[i].1.adapter is Some ==> p[i].1.adapter->0.len()
                == 6) by {
                assert(p[i] == l[i]);
            }
        }
        lines_of_store_text(p, more);
        line_text_is_one_line(e);
        lines_step(line_text(e), rest);
        assert(store_text(l) + rest =~= store_text(p) + more);
        assert(l.map_values(f) + lines_of(rest) =~= p.map_values(f) + (seq![line_text(e)]
            + lines_of(rest)));
    }
}

/// The pairings on the lines of a list are what comes back of them, by address.
proof fn entries_on_lines(l: Seq<(Seq<char>, PairingView)>)
    requires
        forall|i: int|
            0 <= i < l.len() ==> plain_address((#[trigger] l[i]).0) && l[i].1.key.len() == 16 && (
            l[i].1.adapter is Some ==> l[i].1.adapter->0.len() == 6),
    ensures
        entries_on(l.map_values(|e: (Seq<char>, PairingView)| line_text(e))) == by_address(
            l.map_values(|e: (Seq<char>, PairingView)| (e.0, kept(e.1))),
        ),
    decreases l.len(),
{
    let f = |e: (Seq<char>, PairingView)| line_text(e);
    let g = |e: (Seq<char>, PairingView)| (e.0, kept(e.1));
    if l.len() > 0 {
        let p = l.drop_last();
        assert forall|i: int| 0 <= i < p.len() implies plain_address((#[trigger] p[i]).0)
            && p[i].1.key.len() == 16 && (p[i].1.adapter is Some ==> p[i].1.adapter->0.len()
            == 6) by {
            assert(p[i] == l[i]);
        }
        entries_on_lines(p);
        assert(l[l.len() - 1] == l.last());
        a_line_is_read(l.last());
        assert(l.map_values(f).drop_last() =~= p.map_values(f));
        assert(l.map_values(g).drop_last() =~= p.map_values(g));
        assert(l.map_values(f).last() == line_text(l.last()));
    }
}

/// Writing a store out and reading it back loses no device and changes no key, byte for
/// byte, and no adapter; a name comes back on one line and without white space around it,
/// and is never mistaken for an adapter, whatever it looks like.
pub proof fn a_store_survives_its_text(l: Seq<(Seq<char>, PairingView)>)
    requires
        well_listed(l),
    ensures
        store_of(store_text(l)).dom() == by_address(l).dom(),
        forall|a: Seq<char>| #[trigger]
            by_address(l).dom().contains(a) ==> store_of(store_text(l))[a] == kept(
                by_address(l)[a],
            ),
        forall|a: Seq<char>| #[trigger]
            by_address(l).dom().contains(a) && storable(by_address(l)[a]) ==> store_of(
                store_text(l),
            )[a] == by_address(l)[a],
{
    let f = |e: (Seq<char>, PairingView)| line_text(e);
    let g = |e: (Seq<char>, PairingView)| (e.0, kept(e.1));
    let n = l.map_values(g);
    let empty: Seq<char> = seq![];
    lines_of_store_text(l, empty);
    assert(store_text(l) + empty =~= store_text(l));
    assert(l.map_values(f) + lines_of(empty) =~= l.map_values(f));
    entries_on_lines(l);
    let back = by_address(n);
    let b = by_address(l);
    assert(store_of(store_text(l)) == back);
    well_listed_distinct(l);
    by_address_finds(l);
    assert forall|i: int, j: int| 0 <= i < j < n.len() implies (#[trigger] n[i]).0 != (
    #[trigger] n[j]).0 by {
        assert(l[i].0 != l[j].0);
    }
    by_address_finds(n);
    assert forall|a: Seq<char>| #[trigger] b.dom().contains(a) implies back.dom().contains(a)
        && back[a] == kept(b[a]) && (storable(b[a]) ==> back[a] == b[a]) by {
        let i = choose|i: int| 0 <= i < l.len() && (#[trigger] l[i]).0 == a;
        assert(n[i].0 == a);
        the_words_come_back(l[i].1);
    }
    assert forall|a: Seq<char>| back.dom().contains(a) implies b.dom().contains(a) by {
        let i = choose|i: int| 0 <= i < n.len() && (#[trigger] n[i]).0 == a;
        assert(l[i].0 == a);
    }
    assert(back.dom() =~= b.dom());
}

/// A line that is no entry leaves every pairing as it was.
pub proof fn a_malformed_line_costs_nothing(
    earlier: Seq<Seq<char>>,
    junk: Seq<char>,
    later: Seq<Seq<char>>,
)
    requires
        entry_of(junk) is None,
    ensures
        entries_on(earlier + seq![junk] + later) == entries_on(earlier + later),
    decreases later.len(),
{
    let all = earlier + seq![junk] + later;
    if later.len() == 0 {
        assert(all.drop_last() =~= earlier);
        assert(earlier + later =~= earlier);
        assert(all.last() == junk);
    } else {
        a_malformed_line_costs_nothing(earlier, junk, later.drop_last());
        assert(all.drop_last() =~= earlier + seq![junk] + later.drop_last());
        assert((earlier + later).drop_last() =~= earlier + later.drop_last());
        assert(all.last() == later.last());
        assert((earlier + later).last() == later.last());
    }
}

/// What was put is read back, and nobody else's pairing is touched: of a store whose
/// listing, `l`, is that of `earlier` with one pairing put in, the text says for that
/// address what was put, and for every other what it said before.
pub proof fn a_put_key_is_read_back(
    earlier: Map<Seq<char>, PairingView>,
    l: Seq<(Seq<char>, PairingView)>,
    address: Seq<char>,
    p: PairingView,
)
    requires
        well_listed(l),
        by_address(l) == earlier.insert(address, p),
    ensures
        store_of(store_text(l)).dom() == earlier.dom().insert(address),
        store_of(store_text(l))[address] == kept(p),
        forall|a: Seq<char>| #[trigger]
            earlier.dom().contains(a) && a != address ==> store_of(store_text(l))[a] == kept(
                earlier[a],
            ),
{
    a_store_survives_its_text(l);
    assert(by_address(l).dom().contains(address));
    assert forall|a: Seq<char>| #[trigger] earlier.dom().contains(a) && a != address implies store_of(
        store_text(l),
    )[a] == kept(earlier[a]) by {
        assert(by_address(l).dom().contains(a));
    }
}

/// Forgetting a device removes only that one: of a store whose listing, `l`, is that of
/// `earlier` without one address, the text no longer knows that address, and says for
/// every other what it said before.
pub proof fn forgetting_removes_only_one(
    earlier: Map<Seq<char>, PairingView>,
    l: Seq<(Seq<char>, PairingView)>,
    address: Seq<char>,
)
    requires
        well_listed(l),
        by_address(l) == earlier.remove(address),
    ensures
        !store_of(store_text(l)).dom().contains(address),
        store_of(store_text(l)).dom() == earlier.dom().remove(address),
        forall|a: Seq<char>| #[trigger]
            earlier.dom().contains(a) && a != address ==> store_of(store_text(l))[a] == kept(
                earlier[a],
            ),
{
    a_store_survives_its_text(l);
    assert forall|a: Seq<char>| #[trigger] earlier.dom().contains(a) && a != address implies store_of(
        store_text(l),
    )[a] == kept(earlier[a]) by {
        assert(by_address(l).dom().contains(a));
    }
}

/// Where the key file is kept, where that was set.
#[derive(Debug)]
pub struct KeyDir<P> {
    pub setting: Option<P>,
}

/// Point the key store at a directory. `None` restores the default.
pub fn set_dir<P>(k: &mut KeyDir<P>, dir: Option<P>)
    ensures
        final(k).setting == dir,
{
    k.setting = dir;
}

/// The first of what names a directory: the setting, the environment unless what it says is
/// blank, the place of the executable, the working directory, and what is left.
pub open spec fn directory<P>(
    setting: Option<P>,
    environment: Option<(&str, &P)>,
    beside_executable: Option<&P>,
    working: Option<&P>,
    here: &P,
) -> P {
    match setting {
        Some(p) => p,
        None => match environment {
            Some((s, p)) if text::trimmed(s@).len() > 0 => *p,
            _ => match beside_executable {
                Some(p) => *p,
                None => match working {
                    Some(p) => *p,
                    None => *here,
                },
            },
        },
    }
}

/// The directory in use: the explicit setting, else the one of the environment unless it
/// is blank, else the one beside the executable, else the working directory, else `here`.
///
/// Beside the executable, and not the working directory: that is wherever the program
/// happened to be started from, and a user would have nowhere obvious to look.
pub fn dir<'a, P>(
    k: &'a KeyDir<P>,
    environment: Option<(&'a str, &'a P)>,
    beside_executable: Option<&'a P>,
    working: Option<&'a P>,
    here: &'a P,
) -> (d: &'a P)
    ensures
        *d == directory(k.setting, environment, beside_executable, working, here),
{
    if let Some(p) = &k.setting {
        return p;
    }
    if let Some((s, p)) = environment {
        let chars = chars_of(s);
        if trim(chars.as_slice()).len() > 0 {
            return p;
        }
    }
    if let Some(p) = beside_executable {
        return p;
    }
    if let Some(p) = working {
        return p;
    }
    here
}

/// The digits of every byte of an address stand three characters apart, with a colon behind
/// each but the last.
pub proof fn an_address_is_written_with_colons(a: Seq<u8>, i: int)
    requires
        0 <= i < a.len(),
    ensures
        address_text(a).len() == 3 * a.len() - 1,
        address_text(a).subrange(3 * i, 3 * i + 2) == text::hex2(a[i]),
        i + 1 < a.len() ==> address_text(a)[3 * i + 2] == ':',
    decreases a.len(),
{
    let s = address_text(a);
    if a.len() == 1 {
        assert(s.subrange(0, 2) =~= s);
    } else {
        let most = a.drop_last();
        if i < most.len() {
            an_address_is_written_with_colons(most, i);
            assert(s.subrange(3 * i, 3 * i + 2) =~= address_text(most).subrange(3 * i, 3 * i + 2));
        } else {
            an_address_is_written_with_colons(most, i - 1);
            assert(s.subrange(3 * i, 3 * i + 2) =~= text::hex2(a[i]));
        }
    }
}

/// A text is cut at every separator and nowhere else: no part holds one, and with one between
/// each two the parts are the text.
pub proof fn pieces_make_up_the_text(s: Seq<char>, sep: char)
    ensures
        pieces(s, sep).len() > 0,
        forall|i: int|
            0 <= i < pieces(s, sep).len() ==> !(#[trigger] pieces(s, sep)[i]).contains(sep),
        joined_by(pieces(s, sep), sep) == s,
    decreases s.len(),
{
    let at = text::char_index(s, sep) as int;
    let all = pieces(s, sep);
    text::index_where_is_first(s, text::is_char(sep));
    if at >= s.len() {
        assert forall|i: int| 0 <= i < all.len() implies !(#[trigger] all[i]).contains(sep) by {
            if s.contains(sep) {
                let k = choose|k: int| 0 <= k < s.len() && s[k] == sep;
                assert(text::is_char(sep)(s[k]));
            }
        }
        assert(all.skip(1) =~= seq![]);
        assert(joined_by(all, sep) =~= s);
    } else {
        let rest = s.skip(at + 1);
        pieces_make_up_the_text(rest, sep);
        let first = s.take(at);
        assert forall|i: int| 0 <= i < all.len() implies !(#[trigger] all[i]).contains(sep) by {
            if i == 0 {
                if first.contains(sep) {
                    let k = choose|k: int| 0 <= k < first.len() && first[k] == sep;
                    assert(text::is_char(sep)(s[k]));
                }
            } else {
                assert(all[i] == pieces(rest, sep)[i - 1]);
            }
        }
        assert(all.skip(1) =~= pieces(rest, sep));
        assert(text::is_char(sep)(s[at]));
        assert(joined_by(all, sep) =~= s);
    }
}

/// Some texts with a separator between each two.
pub open spec fn joined_by(parts: Seq<Seq<char>>, sep: char) -> Seq<char>
    decreases parts.len(),
{
    if parts.len() == 0 {
        seq![]
    } else if parts.len() == 1 {
        parts[0]
    } else {
        parts[0] + seq![sep] + joined_by(parts.skip(1), sep)
    }
}

/// A line ends at a newline, and a carriage return before that belongs to the end and not to
/// the line. What follows are the lines of the rest; at the end of the text no line begins.
pub proof fn lines_end_at_newlines(line: Seq<char>, rest: Seq<char>)
    requires
        forall|j: int| 0 <= j < line.len() ==> #[trigger] line[j] != '\n' && line[j] != '\r',
    ensures
        lines_of(line + seq!['\n'] + rest) == seq![line] + lines_of(rest),
        lines_of(line + seq!['\r', '\n'] + rest) == seq![line] + lines_of(rest),
        line.len() > 0 ==> lines_of(line) == seq![line],
        lines_of(seq![]) == Seq::<Seq<char>>::empty(),
{
    lines_step(line, rest);
    let s = line + seq!['\r', '\n'] + rest;
    let n = line.len() as int;
    assert forall|j: int| 0 <= j < n + 1 implies !text::is_char('\n')(#[trigger] s[j]) by {
        if j < n {
            assert(s[j] == line[j]);
        }
    }
    assert(s[n] == '\r' && s[n + 1] == '\n');
    text::index_where_unique(s, text::is_char('\n'), n + 1);
    assert(s.take(n) =~= line);
    assert(s.skip(n + 2) =~= rest);
    assert forall|j: int| 0 <= j < n implies !text::is_char('\n')(#[trigger] line[j]) by {
        assert(line[j] != '\n');
    }
    text::index_where_unique(line, text::is_char('\n'), n);
}

/// The pairings of two stretches of lines are those of both, and where both speak of a device,
/// what the later one says.
pub proof fn later_lines_win(a: Seq<Seq<char>>, b: Seq<Seq<char>>)
    ensures
        entries_on(a + b) == entries_on(a).union_prefer_right(entries_on(b)),
    decreases b.len(),
{
    if b.len() == 0 {
        assert(a + b =~= a);
        assert(entries_on(a).union_prefer_right(entries_on(b)) =~= entries_on(a));
    } else {
        later_lines_win(a, b.drop_last());
        assert((a + b).drop_last() =~= a + b.drop_last());
        assert((a + b).last() == b.last());
        assert(entries_on(a + b) =~= entries_on(a).union_prefer_right(entries_on(b)));
    }
}

/// A line that a person wrote is read by its words, whatever white space stands between them:
/// an address in either case, a key, and the rest without the white space around it.
pub proof fn a_line_is_read_by_its_words(
    address: Seq<char>,
    gap: char,
    key: Seq<char>,
    space: char,
    rest: Seq<char>,
)
    requires
        forall|j: int| 0 <= j < address.len() ==> !text::is_white(#[trigger] address[j]),
        forall|j: int| 0 <= j < key.len() ==> !text::is_white(#[trigger] key[j]),
        text::is_white(gap),
        text::is_white(space),
    ensures
        ({
            let line = address + seq![gap] + key + seq![space] + rest;
            &&& entry_of(line) is Some <==> address_of(address) is Some && words_of(
                key,
                text::trimmed(rest),
            ) is Some
            &&& entry_of(line) matches Some(e) ==> e.0 == text::lowered(address) && Some(e.1)
                == words_of(key, text::trimmed(rest))
            &&& entry_of(address) is None
        }),
{
    let line = address + seq![gap] + key + seq![space] + rest;
    let white = |c: char| text::is_white(c);
    let n = address.len() as int;
    assert forall|j: int| 0 <= j < n implies !white(#[trigger] line[j]) by {
        assert(line[j] == address[j]);
    }
    assert(line[n] == gap);
    text::index_where_unique(line, white, n);
    assert(text::white_index(line) == n);
    let after = line.skip(n + 1);
    assert(after =~= key + seq![space] + rest);
    let k = key.len() as int;
    assert forall|j: int| 0 <= j < k implies !white(#[trigger] after[j]) by {
        assert(after[j] == key[j]);
    }
    text::index_where_unique(after, white, k);
    assert(text::white_index(after) == k);
    assert(line.take(n) =~= address);
    assert(after.take(k) =~= key);
    assert(after.skip(k + 1) =~= rest);
    assert forall|j: int| 0 <= j < n implies !white(#[trigger] address[j]) by {
        assert(!text::is_white(address[j]));
    }
    text::index_where_unique(address, white, n);
}

/// Behind the key an `@` and an address name the adapter, and what follows is the name; without
/// an `@` all of it is the name, and nothing at all is none.
pub proof fn an_adapter_is_read_behind_its_sign(
    key: Seq<u8>,
    adapter: Seq<char>,
    gap: char,
    name: Seq<char>,
)
    requires
        forall|j: int| 0 <= j < adapter.len() ==> !text::is_white(#[trigger] adapter[j]),
        address_of(adapter) is Some,
        text::is_white(gap),
    ensures
        pairing_of(key, seq!['@'] + adapter + seq![gap] + name) == (PairingView {
            key,
            name: some_name(text::trimmed(name)),
            adapter: address_of(adapter),
        }),
        pairing_of(key, seq!['@'] + adapter) == (PairingView {
            key,
            name: None,
            adapter: address_of(adapter),
        }),
        name.len() > 0 && name[0] != '@' ==> pairing_of(key, name) == (PairingView {
            key,
            name: Some(name),
            adapter: None,
        }),
        pairing_of(key, seq![]) == (PairingView { key, name: None, adapter: None }),
{
    let white = |c: char| text::is_white(c);
    let n = adapter.len() as int;
    let rest = seq!['@'] + adapter + seq![gap] + name;
    let tail = rest.skip(1);
    assert(tail =~= adapter + seq![gap] + name);
    assert forall|j: int| 0 <= j < n implies !white(#[trigger] tail[j]) by {
        assert(tail[j] == adapter[j]);
    }
    text::index_where_unique(tail, white, n);
    assert(text::white_index(tail) == n);
    assert(tail.take(n) =~= adapter);
    assert(tail.skip(n + 1) =~= name);
    let short = seq!['@'] + adapter;
    assert(short.skip(1) =~= adapter);
    assert forall|j: int| 0 <= j < n implies !white(#[trigger] adapter[j]) by {
        assert(!text::is_white(adapter[j]));
    }
    text::index_where_unique(adapter, white, n);
    assert(text::white_index(adapter) == n);
    assert(adapter.take(n) =~= adapter);
}

/// A pairing that is stored anew has the key that was given, and of its name and its adapter
/// whatever was given; what was not given is as it was, where there was anything.
pub proof fn a_renewed_pairing_keeps_what_is_not_given(
    was: Map<Seq<char>, PairingView>,
    at: Seq<char>,
    key: Seq<u8>,
    name: Seq<char>,
    adapter: Seq<u8>,
)
    ensures
        renewed(was, at, key, Some(name), Some(adapter)) == (PairingView {
            key,
            name: Some(name),
            adapter: Some(adapter),
        }),
        was.dom().contains(at) ==> renewed(was, at, key, None, None) == (PairingView {
            key,
            ..was[at]
        }),
        was.dom().contains(at) ==> renewed(was, at, key, Some(name), None).adapter
            == was[at].adapter,
        was.dom().contains(at) ==> renewed(was, at, key, None, Some(adapter)).name == was[at].name,
        renewed(was, at, key, Some(name), None).name == Some(name),
        renewed(was, at, key, None, Some(adapter)).adapter == Some(adapter),
        !was.dom().contains(at) ==> renewed(was, at, key, None, None) == (PairingView {
            key,
            name: None,
            adapter: None,
        }),
{
}

/// A name on one line is the same, character for character, but for line breaks: each is a
/// space.
pub proof fn a_line_break_becomes_a_space(name: Seq<char>, i: int)
    requires
        0 <= i < name.len(),
    ensures
        one_line(name).len() == name.len(),
        name[i] == '\n' || name[i] == '\r' ==> one_line(name)[i] == ' ',
        name[i] != '\n' && name[i] != '\r' ==> one_line(name)[i] == name[i],
        !one_line(name).contains('\n') && !one_line(name).contains('\r'),
{
}

/// The line of a device: its address, a space, the digits of its key; then, where an adapter is
/// known, a space, an `@` and its address; then, where a name is, a space and the name.
pub proof fn a_line_is_written_word_by_word(
    address: Seq<char>,
    key: Seq<u8>,
    adapter: Seq<u8>,
    name: Seq<char>,
)
    ensures
        ({
            let with = |adapter: Option<Seq<u8>>, name: Option<Seq<char>>|
                line_text((address, PairingView { key, name, adapter }));
            let start = address + seq![' '] + text::hex_of(key);
            &&& with(None, None) == start
            &&& with(Some(adapter), None) == start + seq![' ', '@'] + address_text(adapter)
            &&& with(Some(adapter), Some(name)) == with(Some(adapter), None) + seq![' '] + one_line(
                name,
            )
            &&& !tagged(tidy_name(name)) ==> with(None, Some(name)) == start + seq![' '] + one_line(
                name,
            )
            &&& tagged(tidy_name(name)) ==> with(None, Some(name)) == address + seq![' ', '@']
                + text::hex_of(key) + seq![' '] + one_line(name)
        }),
{
    let with = |adapter: Option<Seq<u8>>, name: Option<Seq<char>>|
        line_text((address, PairingView { key, name, adapter }));
    let start = address + seq![' '] + text::hex_of(key);
    assert(with(None, None) =~= start);
    assert(with(Some(adapter), None) =~= start + seq![' ', '@'] + address_text(adapter));
    assert(with(Some(adapter), Some(name)) =~= with(Some(adapter), None) + seq![' '] + one_line(
        name,
    ));
    if tagged(tidy_name(name)) {
        assert(with(None, Some(name)) =~= address + seq![' ', '@'] + text::hex_of(key) + seq![' ']
            + one_line(name));
    } else {
        assert(with(None, Some(name)) =~= start + seq![' '] + one_line(name));
    }
}

/// The text of two lists is that of the first and then that of the second, and every line of
/// it ends.
pub proof fn texts_add_up(
    a: Seq<(Seq<char>, PairingView)>,
    b: Seq<(Seq<char>, PairingView)>,
    e: (Seq<char>, PairingView),
)
    ensures
        store_text(a + b) == store_text(a) + store_text(b),
        store_text(seq![e]) == line_text(e) + seq!['\n'],
        store_text(seq![]) == Seq::<char>::empty(),
    decreases b.len(),
{
    let none = Seq::<(Seq<char>, PairingView)>::empty();
    assert(seq![e].drop_last() =~= none);
    assert(store_text(none) =~= seq![]);
    assert(store_text(seq![e]) =~= line_text(e) + seq!['\n']);
    if b.len() == 0 {
        assert(a + b =~= a);
        assert(store_text(a) + store_text(b) =~= store_text(a));
    } else {
        texts_add_up(a, b.drop_last(), e);
        assert((a + b).drop_last() =~= a + b.drop_last());
        assert((a + b).last() == b.last());
        assert(store_text(a + b) =~= store_text(a) + store_text(b));
    }
}

/// Behind the same beginning the smaller character comes first, and the end before anything.
pub proof fn the_first_difference_decides(
    front: Seq<char>,
    x: char,
    a: Seq<char>,
    y: char,
    b: Seq<char>,
)
    requires
        x as u32 != y as u32,
    ensures
        before(front + seq![x] + a, front + seq![y] + b) <==> (x as u32) < (y as u32),
        before(front, front + seq![x] + a),
        !before(front + seq![x] + a, front),
    decreases front.len(),
{
    let l = front + seq![x] + a;
    let r = front + seq![y] + b;
    if front.len() == 0 {
        assert(l[0] == x && r[0] == y);
    } else {
        let rest = front.skip(1);
        the_first_difference_decides(rest, x, a, y, b);
        assert(l.skip(1) =~= rest + seq![x] + a);
        assert(r.skip(1) =~= rest + seq![y] + b);
        assert(l[0] == front[0] && r[0] == front[0]);
    }
}

/// An explicit setting is always followed; without one the environment, unless what it says is
/// blank; and the place of the executable before the working directory.
pub proof fn the_setting_comes_first<P>(
    setting: P,
    said: &str,
    named: &P,
    environment: Option<(&str, &P)>,
    exe: Option<&P>,
    beside: &P,
    working: Option<&P>,
    here: &P,
)
    ensures
        directory(Some(setting), environment, exe, working, here) == setting,
        text::trimmed(said@).len() > 0 ==> directory(
            None,
            Some((said, named)),
            exe,
            working,
            here,
        ) == *named,
        text::trimmed(said@).len() == 0 ==> directory(
            None,
            Some((said, named)),
            exe,
            working,
            here,
        ) == directory(None, None, exe, working, here),
        directory(None, None, Some(beside), working, here) == *beside,
        directory(None, None, None, Some(beside), here) == *beside,
        directory(None, None, None, None, here) == *here,
{
}

} // verus!
