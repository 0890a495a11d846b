//! Conversations over the attribute protocol: a request and its answer, and the walks
//! that learn what a controller offers.
use vstd::prelude::*;
use crate::acl;
use crate::acl::{
    att_error_code, att_error_name, find_information_request, is_attribute_not_found,
    parse_characteristic, parse_find_information_response, parse_read_by_type_response,
    parse_read_response, read_by_type_request, write_command, write_request, AclPacket, AttrInfo,
    CharDecl, ATT_ERROR_RESPONSE, ATT_WRITE_COMMAND, ATT_WRITE_REQUEST, ATT_WRITE_RESPONSE, CID_ATT,
    GATT_CHARACTERISTIC,
};
use crate::bytes;
use crate::bytes::copy_range;
use crate::error;
use crate::error::{Error, Result};
use crate::link;
use crate::link::push_listed_bytes;
use crate::text;
use crate::text::{push_hex2, push_hex4, push_text};

verus! {

/// The byte at `i`, where there is one.
pub open spec fn byte_at(s: Seq<u8>, i: int) -> Option<u8> {
    if 0 <= i < s.len() {
        Some(s[i])
    } else {
        None
    }
}

/// Whether a packet answers a request on a link: it is the awaited response, or an
/// error response for that request.
pub open spec fn answers(
    p: acl::AclPacketView,
    conn_handle: u16,
    request: Seq<u8>,
    response_opcode: u8,
) -> bool {
    &&& p.conn_handle == conn_handle
    &&& p.cid == CID_ATT
    &&& p.payload.len() > 0
    &&& p.payload[0] == response_opcode || (p.payload[0] == ATT_ERROR_RESPONSE && byte_at(
        p.payload,
        1,
    ) == byte_at(request, 0))
}

/// The answer to a request, where a packet is that.
///
/// Input reports arrive all the time, so everything that is not the awaited response,
/// or an error response for the request, is skipped. An error ends the exchange:
/// handing it out tells "the walk is finished" apart from "the controller refused".
pub fn answer_to(
    p: AclPacket,
    conn_handle: u16,
    request: &[u8],
    response_opcode: u8,
) -> (r: Option<Vec<u8>>)
    ensures
        match r {
            Some(v) => answers(p@, conn_handle, request@, response_opcode) && v@ == p@.payload,
            None => !answers(p@, conn_handle, request@, response_opcode),
        },
{
    if p.conn_handle != conn_handle || p.cid != CID_ATT || p.payload.len() == 0 {
        return None;
    }
    if p.payload[0] == response_opcode {
        return Some(p.payload);
    }
    if p.payload[0] == ATT_ERROR_RESPONSE {
        let same: bool = if p.payload.len() > 1 && request.len() > 0 {
            p.payload[1] == request[0]
        } else {
            p.payload.len() <= 1 && request.len() == 0
        };
        if same {
            return Some(p.payload);
        }
    }
    None
}

/// The error of a request that nothing answered.
pub open spec fn unanswered(what: Seq<char>) -> error::ErrorView {
    error::ErrorView::Protocol("no reply to "@ + what + " Request within 2 s"@)
}

/// The error of a request that was refused.
pub open spec fn refused(what: Seq<char>, code: u8) -> error::ErrorView {
    error::ErrorView::Protocol(
        what + " refused: 0x"@ + text::hex2(code) + " "@ + acl::att_error_text(code),
    )
}

/// The start of an answer that is shown where it could not be decoded.
pub open spec fn shown(answer: Seq<u8>) -> Seq<u8> {
    if answer.len() <= 16 {
        answer
    } else {
        answer.take(16)
    }
}

/// The error of an answer that could not be decoded.
pub open spec fn undecodable(what: Seq<char>, answer: Seq<u8>) -> error::ErrorView {
    error::ErrorView::Protocol(
        "undecodable "@ + what + " Response: "@ + "["@ + link::listed_bytes(shown(answer)) + "]"@,
    )
}

/// Say that nothing answered a request.
fn say_unanswered(what: &str) -> (e: Error)
    ensures
        e@ == unanswered(what@),
{
    let mut m = String::new();
    push_text(&mut m, "no reply to ");
    push_text(&mut m, what);
    push_text(&mut m, " Request within 2 s");
    assert(m@ =~= "no reply to "@ + what@ + " Request within 2 s"@);
    Error::Protocol(m)
}

/// Say that a request was refused.
fn say_refused(what: &str, code: u8) -> (e: Error)
    ensures
        e@ == refused(what@, code),
{
    let mut m = String::new();
    push_text(&mut m, what);
    push_text(&mut m, " refused: 0x");
    push_hex2(&mut m, code);
    push_text(&mut m, " ");
    push_text(&mut m, att_error_name(code));
    assert(m@ =~= what@ + " refused: 0x"@ + text::hex2(code) + " "@ + acl::att_error_text(code));
    Error::Protocol(m)
}

/// Say that an answer could not be decoded.
fn say_undecodable(what: &str, answer: &[u8]) -> (e: Error)
    ensures
        e@ == undecodable(what@, answer@),
{
    let mut m = String::new();
    push_text(&mut m, "undecodable ");
    push_text(&mut m, what);
    push_text(&mut m, " Response: ");
    let n: usize = if answer.len() <= 16 {
        answer.len()
    } else {
        16
    };
    let start = copy_range(answer, 0, n);
    assert(start@ =~= shown(answer@));
    let ghost head = m@;
    assert(head =~= "undecodable "@ + what@ + " Response: "@);
    push_listed_bytes(&mut m, start.as_slice());
    Error::Protocol(m)
}

/// The most requests that a walk makes, so that a peer that keeps answering cannot
/// make it go on forever.
pub const WALK_REQUESTS: u8 = 64;

/// The last handle there is.
pub const LAST_HANDLE: u16 = 0xFFFF;

/// Whether a walk goes on, and how it ended where it does not.
#[derive(Debug, Clone, PartialEq, Eq)]
pub enum WalkVerdict {
    More,
    Done,
    Failed(Error),
}

/// A [`WalkVerdict`] with its error by its view.
#[verifier::ext_equal]
pub enum WalkVerdictView {
    More,
    Done,
    Failed(error::ErrorView),
}

impl View for WalkVerdict {
    type V = WalkVerdictView;

    open spec fn view(&self) -> WalkVerdictView {
        match self {
            WalkVerdict::More => WalkVerdictView::More,
            WalkVerdict::Done => WalkVerdictView::Done,
            WalkVerdict::Failed(e) => WalkVerdictView::Failed(e@),
        }
    }
}

/// A walk over the handles of a controller: where it goes on, how many requests are
/// left, and what it has found.
#[verifier::ext_equal]
pub struct WalkView<T> {
    pub start: u16,
    pub requests_left: u8,
    pub found: Seq<T>,
}

/// How an answer to a request of a walk is to be read: what it lists, where it lists
/// anything at all, and the last handle of it.
pub enum Listed<T> {
    Undecodable,
    Nothing,
    Entries { entries: Seq<T>, last: u16 },
}

/// What an answer, or its absence, leads to. Silence is a failure only where nothing
/// was found yet; later it just ends the walk.
pub open spec fn walked<T>(
    w: WalkView<T>,
    what: Seq<char>,
    answer: Option<Seq<u8>>,
    listed: Listed<T>,
) -> (WalkView<T>, WalkVerdictView) {
    match answer {
        None => if w.found.len() == 0 {
            (w, WalkVerdictView::Failed(unanswered(what)))
        } else {
            (w, WalkVerdictView::Done)
        },
        Some(a) => match acl::att_error_of(a) {
            Some(code) => if code == acl::ATT_ERR_ATTRIBUTE_NOT_FOUND {
                (w, WalkVerdictView::Done)
            } else {
                (w, WalkVerdictView::Failed(refused(what, code)))
            },
            None => match listed {
                Listed::Undecodable => (w, WalkVerdictView::Failed(undecodable(what, a))),
                Listed::Nothing => (w, WalkVerdictView::Done),
                Listed::Entries { entries, last } => {
                    let found = w.found + entries;
                    if last == LAST_HANDLE {
                        (WalkView { found, ..w }, WalkVerdictView::Done)
                    } else {
                        let next = WalkView {
                            start: (last + 1) as u16,
                            requests_left: (w.requests_left - 1) as u8,
                            found,
                        };
                        (
                            next,
                            if next.requests_left == 0 {
                                WalkVerdictView::Done
                            } else {
                                WalkVerdictView::More
                            },
                        )
                    }
                },
            },
        },
    }
}

/// An answer that may have come.
pub open spec fn maybe_bytes(a: Option<Vec<u8>>) -> Option<Seq<u8>> {
    match a {
        Some(v) => Some(v@),
        None => None,
    }
}

/// What an answer lists of the attribute table.
pub open spec fn attrs_listed(a: Seq<u8>) -> Listed<acl::AttrInfoView> {
    match acl::find_information_of(a) {
        None => Listed::Undecodable,
        Some(entries) => if entries.len() == 0 {
            Listed::Nothing
        } else {
            Listed::Entries { entries, last: entries.last().handle }
        },
    }
}

/// A walk over the whole attribute table: every handle and its type.
///
/// Worth doing although the handles are known: a capture shows only those that were
/// touched, so "not in the capture" and "not on the device" look the same without it.
#[derive(Debug)]
pub struct AttributeWalk {
    pub start: u16,
    pub requests_left: u8,
    pub found: Vec<AttrInfo>,
}

impl View for AttributeWalk {
    type V = WalkView<acl::AttrInfoView>;

    open spec fn view(&self) -> WalkView<acl::AttrInfoView> {
        WalkView {
            start: self.start,
            requests_left: self.requests_left,
            found: acl::attr_views(self.found@),
        }
    }
}

/// The request that goes on with a walk over the attribute table.
pub open spec fn next_attributes(start: u16) -> Seq<u8> {
    acl::find_pdu(start, LAST_HANDLE)
}

/// The words for the walk over the attribute table.
pub open spec fn find_information_words() -> Seq<char> {
    "Find Information"@
}

impl AttributeWalk {
    /// Begin at the first handle.
    pub fn new() -> (w: AttributeWalk)
        ensures
            w@ == (WalkView::<acl::AttrInfoView> { start: 1, requests_left: WALK_REQUESTS, found: seq![] }),
    {
        let w = AttributeWalk { start: 1, requests_left: WALK_REQUESTS, found: Vec::new() };
        assert(acl::attr_views(w.found@) =~= seq![]);
        w
    }

    /// The next request.
    pub fn request(&self) -> (r: Vec<u8>)
        ensures
            r@ == next_attributes(self.start),
    {
        find_information_request(self.start, LAST_HANDLE)
    }

    /// Take the answer to the last request into account, or that none came.
    pub fn answer(&mut self, answer: Option<Vec<u8>>) -> (v: WalkVerdict)
        requires
            old(self).requests_left > 0,
        ensures
            (final(self)@, v@) == walked(
                old(self)@,
                find_information_words(),
                maybe_bytes(answer),
                match answer {
                    Some(a) => attrs_listed(a@),
                    None => Listed::Nothing,
                },
            ),
    {
        let ghost before = self@;
        let a = match answer {
            Some(a) => a,
            None => {
                if self.found.len() == 0 {
                    return WalkVerdict::Failed(say_unanswered("Find Information"));
                }
                return WalkVerdict::Done;
            },
        };
        if is_attribute_not_found(a.as_slice()) {
            return WalkVerdict::Done;
        }
        if let Some(code) = att_error_code(a.as_slice()) {
            return WalkVerdict::Failed(say_refused("Find Information", code));
        }
        let entries = match parse_find_information_response(a.as_slice()) {
            Some(e) => e,
            None => {
                return WalkVerdict::Failed(say_undecodable("Find Information", a.as_slice()));
            },
        };
        if entries.len() == 0 {
            return WalkVerdict::Done;
        }
        let last: u16 = entries[entries.len() - 1].handle;
        let ghost views = acl::attr_views(entries@);
        assert(views.last().handle == last);
        let mut entries = entries;
        self.found.append(&mut entries);
        assert(acl::attr_views(self.found@) =~= before.found + views);
        if last == LAST_HANDLE {
            return WalkVerdict::Done;
        }
        self.start = last + 1;
        self.requests_left = self.requests_left - 1;
        if self.requests_left == 0 {
            WalkVerdict::Done
        } else {
            WalkVerdict::More
        }
    }
}

/// The declarations among entries of a handle and a value: those that decode.
pub open spec fn declarations_in(entries: Seq<(u16, Seq<u8>)>) -> Seq<acl::CharDeclView>
    decreases entries.len(),
{
    if entries.len() == 0 {
        seq![]
    } else {
        let rest = declarations_in(entries.drop_last());
        match acl::characteristic_of(entries.last().0, entries.last().1) {
            Some(c) => rest.push(c),
            None => rest,
        }
    }
}

/// Decode declarations out of entries of a handle and a value.
fn decode_declarations(entries: &Vec<(u16, Vec<u8>)>) -> (v: Vec<CharDecl>)
    ensures
        acl::decl_views(v@) == declarations_in(acl::entry_views(entries@)),
{
    let ghost all = acl::entry_views(entries@);
    let mut v: Vec<CharDecl> = Vec::new();
    let mut i: usize = 0;
    assert(all.take(0) =~= seq![]);
    assert(acl::decl_views(v@) =~= declarations_in(all.take(0)));
    while i < entries.len()
        invariant
            i <= entries@.len(),
            all == acl::entry_views(entries@),
            acl::decl_views(v@) == declarations_in(all.take(i as int)),
        decreases entries@.len() - i,
    {
        let ghost before = acl::decl_views(v@);
        let handle: u16 = entries[i].0;
        assert(all[i as int] == (handle, entries@[i as int].1@));
        assert(all.take(i + 1).drop_last() =~= all.take(i as int));
        if let Some(c) = parse_characteristic(handle, entries[i].1.as_slice()) {
            v.push(c);
            assert(acl::decl_views(v@) =~= before.push(c@));
        }
        i += 1;
    }
    assert(all.take(i as int) =~= all);
    v
}

/// What an answer lists of the characteristics.
pub open spec fn declarations_listed(a: Seq<u8>) -> Listed<acl::CharDeclView> {
    match acl::read_by_type_of(a) {
        None => Listed::Undecodable,
        Some(entries) => if entries.len() == 0 {
            Listed::Nothing
        } else {
            Listed::Entries { entries: declarations_in(entries), last: entries.last().0 }
        },
    }
}

/// A walk over every characteristic declaration: properties and value handles, which is
/// what says whether a characteristic can notify at all.
#[derive(Debug)]
pub struct CharacteristicWalk {
    pub start: u16,
    pub requests_left: u8,
    pub found: Vec<CharDecl>,
}

impl View for CharacteristicWalk {
    type V = WalkView<acl::CharDeclView>;

    open spec fn view(&self) -> WalkView<acl::CharDeclView> {
        WalkView {
            start: self.start,
            requests_left: self.requests_left,
            found: acl::decl_views(self.found@),
        }
    }
}

/// The request that goes on with a walk over the characteristics.
pub open spec fn next_characteristics(start: u16) -> Seq<u8> {
    acl::read_by_type_pdu(start, LAST_HANDLE, GATT_CHARACTERISTIC)
}

/// The words for the walk over the characteristics.
pub open spec fn read_by_type_words() -> Seq<char> {
    "Read By Type"@
}

impl CharacteristicWalk {
    /// Begin at the first handle.
    pub fn new() -> (w: CharacteristicWalk)
        ensures
            w@ == (WalkView::<acl::CharDeclView> { start: 1, requests_left: WALK_REQUESTS, found: seq![] }),
    {
        let w = CharacteristicWalk { start: 1, requests_left: WALK_REQUESTS, found: Vec::new() };
        assert(acl::decl_views(w.found@) =~= seq![]);
        w
    }

    /// The next request.
    pub fn request(&self) -> (r: Vec<u8>)
        ensures
            r@ == next_characteristics(self.start),
    {
        read_by_type_request(self.start, LAST_HANDLE, GATT_CHARACTERISTIC)
    }

    /// Take the answer to the last request into account, or that none came.
    pub fn answer(&mut self, answer: Option<Vec<u8>>) -> (v: WalkVerdict)
        requires
            old(self).requests_left > 0,
        ensures
            (final(self)@, v@) == walked(
                old(self)@,
                read_by_type_words(),
                maybe_bytes(answer),
                match answer {
                    Some(a) => declarations_listed(a@),
                    None => Listed::Nothing,
                },
            ),
    {
        let ghost before = self@;
        let a = match answer {
            Some(a) => a,
            None => {
                if self.found.len() == 0 {
                    return WalkVerdict::Failed(say_unanswered("Read By Type"));
                }
                return WalkVerdict::Done;
            },
        };
        if is_attribute_not_found(a.as_slice()) {
            return WalkVerdict::Done;
        }
        if let Some(code) = att_error_code(a.as_slice()) {
            return WalkVerdict::Failed(say_refused("Read By Type", code));
        }
        let entries = match parse_read_by_type_response(a.as_slice()) {
            Some(e) => e,
            None => {
                return WalkVerdict::Failed(say_undecodable("Read By Type", a.as_slice()));
            },
        };
        if entries.len() == 0 {
            return WalkVerdict::Done;
        }
        let last: u16 = entries[entries.len() - 1].0;
        assert(acl::entry_views(entries@).last().0 == last);
        let mut decls = decode_declarations(&entries);
        let ghost views = acl::decl_views(decls@);
        self.found.append(&mut decls);
        assert(acl::decl_views(self.found@) =~= before.found + views);
        if last == LAST_HANDLE {
            return WalkVerdict::Done;
        }
        self.start = last + 1;
        self.requests_left = self.requests_left - 1;
        if self.requests_left == 0 {
            WalkVerdict::Done
        } else {
            WalkVerdict::More
        }
    }
}

/// A walk only ever adds to what it found, and comes closer to its end with every
/// answer, whatever the peer says.
pub proof fn a_walk_comes_to_an_end<T>(
    w: WalkView<T>,
    what: Seq<char>,
    answer: Option<Seq<u8>>,
    listed: Listed<T>,
)
    requires
        w.requests_left > 0,
    ensures
        ({
            let (next, verdict) = walked(w, what, answer, listed);
            &&& next.found.len() >= w.found.len() && next.found.take(w.found.len() as int) == w.found
            &&& verdict == WalkVerdictView::More ==> next.requests_left == w.requests_left - 1
                && next.requests_left > 0
        }),
{
    let (next, _) = walked(w, what, answer, listed);
    assert(next.found.take(w.found.len() as int) =~= w.found);
}

/// The end of a walk is recognised as completion: an error that says that there is no
/// further attribute is no failure, even before anything was found.
pub proof fn the_end_of_a_walk_is_no_failure<T>(
    w: WalkView<T>,
    what: Seq<char>,
    answer: Seq<u8>,
    listed: Listed<T>,
)
    requires
        acl::att_error_of(answer) == Some(acl::ATT_ERR_ATTRIBUTE_NOT_FOUND),
    ensures
        walked(w, what, Some(answer), listed) == (w, WalkVerdictView::Done),
{
}

/// What a read came to. Refused and silent are different facts: the error code of a
/// refusal is the whole content of the answer.
pub open spec fn read_came_to(answer: Option<Seq<u8>>) -> core::result::Result<
    Option<Seq<u8>>,
    u8,
> {
    match answer {
        None => Ok(None),
        Some(a) => match acl::att_error_of(a) {
            Some(code) => Err(code),
            None => Ok(acl::read_value_of(a)),
        },
    }
}

/// Read the answer to a read, keeping the error code where it was refused. `Ok(None)`
/// is silence.
pub fn read_outcome(answer: Option<Vec<u8>>) -> (r: core::result::Result<Option<Vec<u8>>, u8>)
    ensures
        match r {
            Ok(v) => read_came_to(maybe_bytes(answer)) == Ok::<Option<Seq<u8>>, u8>(
                maybe_bytes(v),
            ),
            Err(code) => read_came_to(maybe_bytes(answer)) == Err::<Option<Seq<u8>>, u8>(code),
        },
{
    let a = match answer {
        Some(a) => a,
        None => {
            return Ok(None);
        },
    };
    if let Some(code) = att_error_code(a.as_slice()) {
        return Err(code);
    }
    Ok(parse_read_response(a.as_slice()))
}

/// The value that a read gave, where it gave one.
pub fn read_value(answer: Option<Vec<u8>>) -> (r: Option<Vec<u8>>)
    ensures
        maybe_bytes(r) == match read_came_to(maybe_bytes(answer)) {
            Ok(v) => v,
            Err(_) => None,
        },
{
    match read_outcome(answer) {
        Ok(v) => v,
        Err(_) => None,
    }
}

/// The handles of the characteristic declarations in an attribute table, in order.
pub open spec fn declaration_handles_in(attrs: Seq<acl::AttrInfoView>) -> Seq<u16>
    decreases attrs.len(),
{
    if attrs.len() == 0 {
        seq![]
    } else {
        let rest = declaration_handles_in(attrs.drop_last());
        if attrs.last().uuid == acl::AttUuidView::Short(GATT_CHARACTERISTIC) {
            rest.push(attrs.last().handle)
        } else {
            rest
        }
    }
}

/// The handles whose values are characteristic declarations: the way to learn the
/// properties from a peer that lists its attributes but never answers a walk over its
/// characteristics.
pub fn declaration_handles(attrs: &[AttrInfo]) -> (v: Vec<u16>)
    ensures
        v@ == declaration_handles_in(acl::attr_views(attrs@)),
{
    let ghost all = acl::attr_views(attrs@);
    let mut v: Vec<u16> = Vec::new();
    let mut i: usize = 0;
    assert(all.take(0) =~= seq![]);
    assert(v@ =~= declaration_handles_in(all.take(0)));
    while i < attrs.len()
        invariant
            i <= attrs@.len(),
            all == acl::attr_views(attrs@),
            v@ == declaration_handles_in(all.take(i as int)),
        decreases attrs@.len() - i,
    {
        let a = attrs[i];
        assert(all[i as int] == a@);
        assert(all.take(i + 1).drop_last() =~= all.take(i as int));
        if a.uuid.is_short(GATT_CHARACTERISTIC) {
            v.push(a.handle);
        }
        i += 1;
    }
    assert(all.take(i as int) =~= all);
    v
}

/// What was read at the handles of declarations, as far as anything was.
pub open spec fn readable(reads: Seq<(u16, Option<Seq<u8>>)>) -> Seq<acl::CharDeclView>
    decreases reads.len(),
{
    if reads.len() == 0 {
        seq![]
    } else {
        let rest = readable(reads.drop_last());
        match reads.last().1 {
            Some(v) => match acl::characteristic_of(reads.last().0, v) {
                Some(c) => rest.push(c),
                None => rest,
            },
            None => rest,
        }
    }
}

/// The reads of `all`, each value by its view.
pub open spec fn read_views(all: Seq<(u16, Option<Vec<u8>>)>) -> Seq<(u16, Option<Seq<u8>>)> {
    all.map_values(|r: (u16, Option<Vec<u8>>)| (r.0, maybe_bytes(r.1)))
}

/// The characteristics out of their declarations, read one by one. One that could not
/// be read is skipped: the rest of the table is still worth having.
pub fn read_characteristics(reads: &[(u16, Option<Vec<u8>>)]) -> (v: Vec<CharDecl>)
    ensures
        acl::decl_views(v@) == readable(read_views(reads@)),
{
    let ghost all = read_views(reads@);
    let mut v: Vec<CharDecl> = Vec::new();
    let mut i: usize = 0;
    assert(all.take(0) =~= seq![]);
    assert(acl::decl_views(v@) =~= readable(all.take(0)));
    while i < reads.len()
        invariant
            i <= reads@.len(),
            all == read_views(reads@),
            acl::decl_views(v@) == readable(all.take(i as int)),
        decreases reads@.len() - i,
    {
        let ghost before = acl::decl_views(v@);
        let handle: u16 = reads[i].0;
        assert(all[i as int] == (handle, maybe_bytes(reads@[i as int].1)));
        assert(all.take(i + 1).drop_last() =~= all.take(i as int));
        if let Some(value) = &reads[i].1 {
            if let Some(c) = parse_characteristic(handle, value.as_slice()) {
                v.push(c);
                assert(acl::decl_views(v@) =~= before.push(c@));
            }
        }
        i += 1;
    }
    assert(all.take(i as int) =~= all);
    v
}

/// A write as it goes out, and whether an answer is to be waited for.
pub open spec fn write_out(handle: u16, value: Seq<u8>, opcode: u8) -> (Seq<u8>, bool) {
    if opcode == ATT_WRITE_COMMAND {
        (acl::write_pdu(ATT_WRITE_COMMAND, handle, value), false)
    } else {
        (acl::write_pdu(ATT_WRITE_REQUEST, handle, value), true)
    }
}

/// A write as it goes out, and whether an answer is to be waited for: only an
/// acknowledged write has one.
pub fn write_message(handle: u16, value: &[u8], opcode: u8) -> (r: (Vec<u8>, bool))
    ensures
        (r.0@, r.1) == write_out(handle, value@, opcode),
{
    if opcode == ATT_WRITE_COMMAND {
        (write_command(handle, value), false)
    } else {
        (write_request(handle, value), true)
    }
}

/// What an acknowledged write came to.
pub open spec fn write_came_to(handle: u16, answer: Option<Seq<u8>>) -> core::result::Result<
    (),
    error::ErrorView,
> {
    match answer {
        Some(a) => if a.len() > 0 && a[0] == ATT_WRITE_RESPONSE {
            Ok(())
        } else {
            let code = match acl::att_error_of(a) {
                Some(c) => c,
                None => 0u8,
            };
            Err(
                error::ErrorView::Protocol(
                    "write to 0x"@ + text::hex4(handle) + " refused: 0x"@ + text::hex2(code)
                        + " "@ + acl::att_error_text(code),
                ),
            )
        },
        None => Err(
            error::ErrorView::Protocol(
                "no Write Response from 0x"@ + text::hex4(handle) + " within 800 ms"@,
            ),
        ),
    }
}

/// Read the answer to an acknowledged write.
pub fn write_outcome(handle: u16, answer: Option<Vec<u8>>) -> (r: Result<()>)
    ensures
        link::unit_view(r) == write_came_to(handle, maybe_bytes(answer)),
{
    match answer {
        Some(a) => {
            if a.len() > 0 && a[0] == ATT_WRITE_RESPONSE {
                return Ok(());
            }
            let code: u8 = match att_error_code(a.as_slice()) {
                Some(c) => c,
                None => 0,
            };
            let mut m = String::new();
            push_text(&mut m, "write to 0x");
            push_hex4(&mut m, handle);
            push_text(&mut m, " refused: 0x");
            push_hex2(&mut m, code);
            push_text(&mut m, " ");
            push_text(&mut m, att_error_name(code));
            assert(m@ =~= "write to 0x"@ + text::hex4(handle) + " refused: 0x"@ + text::hex2(code)
                + " "@ + acl::att_error_text(code));
            Err(Error::Protocol(m))
        },
        None => {
            let mut m = String::new();
            push_text(&mut m, "no Write Response from 0x");
            push_hex4(&mut m, handle);
            push_text(&mut m, " within 800 ms");
            assert(m@ =~= "no Write Response from 0x"@ + text::hex4(handle) + " within 800 ms"@);
            Err(Error::Protocol(m))
        },
    }
}

/// A packet answers a request only on its own link and in the attribute protocol, and either
/// as the response that is waited for, or as an error that names that very request.
pub proof fn an_answer_is_to_its_request(
    p: acl::AclPacketView,
    conn: u16,
    asked: u8,
    rest: Seq<u8>,
    response: u8,
)
    requires
        p.payload.len() > 1,
        response != 0x01,
    ensures
        answers(p, conn, seq![asked] + rest, response) <==> {
            &&& p.conn_handle == conn
            &&& p.cid == 4
            &&& p.payload[0] == response || p.payload[0] == 0x01 && p.payload[1] == asked
        },
{
    let request = seq![asked] + rest;
    assert(request[0] == asked);
    assert(byte_at(request, 0) == Some(asked));
    assert(byte_at(p.payload, 1) == Some(p.payload[1]));
}

/// A walk goes on right behind the last handle that an answer listed, keeps everything that
/// was found and adds what was listed, in order.
pub proof fn a_walk_goes_on_behind_what_was_listed<T>(
    w: WalkView<T>,
    what: Seq<char>,
    answer: Seq<u8>,
    entries: Seq<T>,
    last: u16,
)
    requires
        w.requests_left > 1,
        last < 0xFFFF,
        answer.len() > 0,
        answer[0] != 0x01,
    ensures
        walked(w, what, Some(answer), Listed::Entries { entries, last }) == (
            WalkView {
                start: (last + 1) as u16,
                requests_left: (w.requests_left - 1) as u8,
                found: w.found + entries,
            },
            WalkVerdictView::More,
        ),
{
}

/// A walk is over where the last handle there is was listed, where nothing is listed, and
/// where it has used up its requests; what it found is kept, and none of these is a failure.
pub proof fn a_walk_ends_in_three_ways<T>(
    w: WalkView<T>,
    what: Seq<char>,
    answer: Seq<u8>,
    entries: Seq<T>,
    last: u16,
)
    requires
        w.requests_left > 0,
        answer.len() > 0,
        answer[0] != 0x01,
    ensures
        last == 0xFFFF || w.requests_left == 1 ==> ({
            let (next, verdict) = walked(
                w,
                what,
                Some(answer),
                Listed::Entries { entries, last },
            );
            next.found == w.found + entries && verdict == WalkVerdictView::Done
        }),
        walked(w, what, Some(answer), Listed::Nothing) == (w, WalkVerdictView::Done),
{
}

/// A walk fails where an answer cannot be read, where it is an error other than that there is
/// nothing further, and where nothing answers before anything was found; later, silence only
/// ends it. What was found is kept in every case.
pub proof fn a_walk_fails_in_three_ways<T>(
    w: WalkView<T>,
    what: Seq<char>,
    asked: u8,
    handle: u16,
    reason: u8,
    odd: Seq<u8>,
    listed: Listed<T>,
)
    requires
        odd.len() > 0,
        odd[0] != 0x01,
    ensures
        ({
            let error = seq![0x01u8, asked] + bytes::le16(handle) + seq![reason];
            let (next, verdict) = walked(w, what, Some(error), listed);
            &&& next == w
            &&& verdict is Failed <==> reason != 0x0A
            &&& verdict is Done <==> reason == 0x0A
        }),
        walked(w, what, Some(odd), Listed::Undecodable).0 == w,
        walked(w, what, Some(odd), Listed::Undecodable).1 is Failed,
        walked(w, what, None, listed).0 == w,
        walked(w, what, None, listed).1 is Failed <==> w.found.len() == 0,
        walked(w, what, None, listed).1 is Done <==> w.found.len() > 0,
{
    acl::an_error_is_read(0x01, asked, handle, reason, seq![]);
    assert(seq![0x01u8, asked] + bytes::le16(handle) + seq![reason] + Seq::<u8>::empty() =~= seq![
        0x01u8,
        asked,
    ] + bytes::le16(handle) + seq![reason]);
}

/// A listing says the last handle that it got to.
pub proof fn a_listing_says_how_far_it_got(a: Seq<u8>)
    ensures
        attrs_listed(a) is Undecodable <==> acl::find_information_of(a) is None,
        acl::find_information_of(a) matches Some(all) ==> if all.len() == 0 {
            attrs_listed(a) is Nothing
        } else {
            attrs_listed(a) == (Listed::Entries { entries: all, last: all[all.len() - 1].handle })
        },
        declarations_listed(a) is Undecodable <==> acl::read_by_type_of(a) is None,
        acl::read_by_type_of(a) matches Some(all) ==> if all.len() == 0 {
            declarations_listed(a) is Nothing
        } else {
            declarations_listed(a) == (Listed::Entries {
                entries: declarations_in(all),
                last: all[all.len() - 1].0,
            })
        },
{
}

/// The declarations among entries are those that can be read as one, each under the handle it
/// stands at, in order: of two lists together they are those of the one and then the other.
pub proof fn declarations_are_kept_in_order(
    a: Seq<(u16, Seq<u8>)>,
    b: Seq<(u16, Seq<u8>)>,
    e: (u16, Seq<u8>),
)
    ensures
        declarations_in(a + b) == declarations_in(a) + declarations_in(b),
        declarations_in(seq![e]) == match acl::characteristic_of(e.0, e.1) {
            Some(c) => seq![c],
            None => seq![],
        },
        declarations_in(seq![]) == Seq::<acl::CharDeclView>::empty(),
    decreases b.len(),
{
    let none = Seq::<(u16, Seq<u8>)>::empty();
    assert(seq![e].drop_last() =~= none);
    assert(declarations_in(none) =~= seq![]);
    if b.len() == 0 {
        assert(a + b =~= a);
        assert(declarations_in(a) + declarations_in(b) =~= declarations_in(a));
    } else {
        declarations_are_kept_in_order(a, b.drop_last(), e);
        assert((a + b).drop_last() =~= a + b.drop_last());
        assert((a + b).last() == b.last());
        assert(declarations_in(a + b) =~= declarations_in(a) + declarations_in(b));
    }
    assert(declarations_in(seq![e]) =~= match acl::characteristic_of(e.0, e.1) {
        Some(c) => seq![c],
        None => seq![],
    });
}

/// The handles of declarations in a table are those of the attributes whose type says so, in
/// order.
pub proof fn declaration_handles_are_kept_in_order(
    a: Seq<acl::AttrInfoView>,
    b: Seq<acl::AttrInfoView>,
    e: acl::AttrInfoView,
)
    ensures
        declaration_handles_in(a + b) == declaration_handles_in(a) + declaration_handles_in(b),
        declaration_handles_in(seq![e]) == if e.uuid == acl::AttUuidView::Short(0x2803) {
            seq![e.handle]
        } else {
            seq![]
        },
        declaration_handles_in(seq![]) == Seq::<u16>::empty(),
    decreases b.len(),
{
    let none = Seq::<acl::AttrInfoView>::empty();
    assert(seq![e].drop_last() =~= none);
    assert(declaration_handles_in(none) =~= seq![]);
    if b.len() == 0 {
        assert(a + b =~= a);
        assert(declaration_handles_in(a) + declaration_handles_in(b) =~= declaration_handles_in(a));
    } else {
        declaration_handles_are_kept_in_order(a, b.drop_last(), e);
        assert((a + b).drop_last() =~= a + b.drop_last());
        assert((a + b).last() == b.last());
        assert(declaration_handles_in(a + b) =~= declaration_handles_in(a)
            + declaration_handles_in(b));
    }
    assert(declaration_handles_in(seq![e]) =~= if e.uuid == acl::AttUuidView::Short(0x2803) {
        seq![e.handle]
    } else {
        seq![]
    });
}

/// Declarations that were read one by one are those that a listing of the same values has;
/// what could not be read is left out.
pub proof fn reading_one_by_one_finds_the_same(reads: Seq<(u16, Option<Seq<u8>>)>)
    ensures
        (forall|i: int| 0 <= i < reads.len() ==> (#[trigger] reads[i]).1 is Some) ==> readable(reads)
            == declarations_in(
            reads.map_values(|r: (u16, Option<Seq<u8>>)| (r.0, r.1->0)),
        ),
        reads.len() > 0 && reads.last().1 is None ==> readable(reads) == readable(
            reads.drop_last(),
        ),
    decreases reads.len(),
{
    let f = |r: (u16, Option<Seq<u8>>)| (r.0, r.1->0);
    if reads.len() == 0 {
        assert(reads.map_values(f) =~= seq![]);
    } else {
        let most = reads.drop_last();
        reading_one_by_one_finds_the_same(most);
        if forall|i: int| 0 <= i < reads.len() ==> (#[trigger] reads[i]).1 is Some {
            assert forall|i: int| 0 <= i < most.len() implies (#[trigger] most[i]).1 is Some by {
                assert(most[i] == reads[i]);
            }
            assert(reads[reads.len() - 1].1 is Some);
            assert(reads.map_values(f).drop_last() =~= most.map_values(f));
            assert(reads.map_values(f).last() == f(reads.last()));
        }
    }
}

/// Of a read, silence, a refusal and a value are told apart: a value is what stands behind
/// the first byte of the response, and a refusal is told by its reason.
pub proof fn a_read_tells_three_outcomes_apart(value: Seq<u8>, asked: u8, handle: u16, reason: u8)
    ensures
        read_came_to(None) == Ok::<Option<Seq<u8>>, u8>(None),
        read_came_to(Some(seq![0x0Bu8] + value)) == Ok::<Option<Seq<u8>>, u8>(Some(value)),
        read_came_to(Some(seq![0x01u8, asked] + bytes::le16(handle) + seq![reason])) == Err::<
            Option<Seq<u8>>,
            u8,
        >(reason),
{
    let r = seq![0x0Bu8] + value;
    assert(r[0] == 0x0B);
    assert(r.skip(1) =~= value);
    acl::an_error_is_read(0x01, asked, handle, reason, seq![]);
    assert(seq![0x01u8, asked] + bytes::le16(handle) + seq![reason] + Seq::<u8>::empty() =~= seq![
        0x01u8,
        asked,
    ] + bytes::le16(handle) + seq![reason]);
}

/// A write succeeded exactly where the response to it came.
pub proof fn a_write_succeeds_by_its_response(handle: u16, answer: Option<Seq<u8>>)
    ensures
        write_came_to(handle, answer) is Ok <==> (answer matches Some(a) && a.len() > 0 && a[0]
            == 0x13),
{
}

/// Of an answer that could not be read, as much is shown as there is, up to sixteen bytes.
pub proof fn an_odd_answer_is_shown_from_its_start(answer: Seq<u8>, i: int)
    ensures
        shown(answer).len() == if answer.len() < 16 {
            answer.len()
        } else {
            16
        },
        0 <= i < shown(answer).len() ==> shown(answer)[i] == answer[i],
{
}

/// A walk asks from where it stands to the last handle there is: for every attribute, or for
/// every characteristic.
pub proof fn a_walk_asks_to_the_end(start: u16)
    ensures
        next_attributes(start) == seq![
            0x04u8,
            (start % 256) as u8,
            (start / 256) as u8,
            0xFFu8,
            0xFFu8,
        ],
        next_characteristics(start) == seq![
            0x08u8,
            (start % 256) as u8,
            (start / 256) as u8,
            0xFFu8,
            0xFFu8,
            0x03u8,
            0x28u8,
        ],
{
    acl::requests_stand_by_their_bytes(0, start, 0xFFFF, 0x2803, 0);
}

/// A write is sent as it was asked for, and an answer is waited for exactly where it is an
/// acknowledged one.
pub proof fn only_an_acknowledged_write_is_waited_for(handle: u16, value: Seq<u8>, opcode: u8)
    ensures
        write_out(handle, value, 0x52) == (
            seq![0x52u8, (handle % 256) as u8, (handle / 256) as u8] + value,
            false,
        ),
        opcode != 0x52 ==> write_out(handle, value, opcode) == (
            seq![0x12u8, (handle % 256) as u8, (handle / 256) as u8] + value,
            true,
        ),
{
    acl::a_write_stands_by_its_bytes(0x52, handle, value);
    acl::a_write_stands_by_its_bytes(0x12, handle, value);
}

} // verus!
