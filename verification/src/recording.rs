//! Recordings of input reports: which stream a report belongs to, which of its bytes
//! carry anything, and how a recording is kept in a file.
use vstd::arithmetic::power2;
use vstd::prelude::*;
use crate::acl;
use crate::acl::{parse_notification, AclPacket, CID_ATT};
use crate::bytes;
use crate::bytes::{copy_range, join16, join32, len8, push16, push32, push_all};
use crate::fields;
use crate::fields::{packed_extremes, power, range_of, span_of, Codec};
use crate::joycon::HANDLE_INPUT_VALUE;
use crate::text;
use crate::text::{push_hex4, push_text};

verus! {

/// Which of the two halves a controller is.
#[derive(Debug, Clone, Copy, PartialEq, Eq, Structural)]
pub enum Side {
    Left,
    Right,
}

impl Side {
    /// What a half is called.
    pub open spec fn words(self) -> Seq<char> {
        match self {
            Side::Left => "LEFT"@,
            Side::Right => "RIGHT"@,
        }
    }

    /// What a half is called.
    pub fn name(self) -> (s: &'static str)
        ensures
            s@ == self.words(),
    {
        match self {
            Side::Left => "LEFT",
            Side::Right => "RIGHT",
        }
    }
}

/// One stream of reports: a half and one of its notifying characteristics.
#[derive(Debug, Clone, Copy, PartialEq, Eq, Structural)]
pub struct Link {
    pub conn: u16,
    pub side: Side,
    /// Attribute handle the notifications arrive on.
    pub att: u16,
}

impl Link {
    /// Display label. The handle is part of it: two streams may differ by nothing else.
    pub fn label(&self) -> (s: String)
        ensures
            s@ == self.side.words() + "@0x"@ + text::hex4(self.att),
    {
        let mut s = String::new();
        push_text(&mut s, self.side.name());
        push_text(&mut s, "@0x");
        push_hex4(&mut s, self.att);
        assert(s@ =~= self.side.words() + "@0x"@ + text::hex4(self.att));
        s
    }
}

/// The halves behind some streams, each once, in the order of their first stream.
pub open spec fn halves_of(links: Seq<Link>) -> Seq<(u16, Side)>
    decreases links.len(),
{
    if links.len() == 0 {
        seq![]
    } else {
        let rest = halves_of(links.drop_last());
        if exists|i: int| 0 <= i < rest.len() && (#[trigger] rest[i]).0 == links.last().conn {
            rest
        } else {
            rest.push((links.last().conn, links.last().side))
        }
    }
}

/// The halves behind some streams.
pub fn halves(links: &[Link]) -> (v: Vec<(u16, Side)>)
    ensures
        v@ == halves_of(links@),
{
    let mut v: Vec<(u16, Side)> = Vec::new();
    let mut i: usize = 0;
    assert(links@.take(0) =~= seq![]);
    while i < links.len()
        invariant
            i <= links@.len(),
            v@ == halves_of(links@.take(i as int)),
        decreases links@.len() - i,
    {
        assert(links@.take(i + 1).drop_last() =~= links@.take(i as int));
        let l = links[i];
        let mut known: bool = false;
        let mut j: usize = 0;
        while j < v.len()
            invariant
                j <= v@.len(),
                known == exists|k: int| 0 <= k < j && (#[trigger] v@[k]).0 == l.conn,
            decreases v@.len() - j,
        {
            if v[j].0 == l.conn {
                known = true;
                assert(v@[j as int].0 == l.conn);
            }
            j += 1;
        }
        if !known {
            v.push((l.conn, l.side));
        }
        i += 1;
    }
    assert(links@.take(i as int) =~= links@);
    v
}

/// The reports of one stream.
#[derive(Debug)]
pub struct Stream {
    pub conn: u16,
    pub att: u16,
    pub frames: Vec<Vec<u8>>,
}

/// A [`Stream`] with its reports as sequences.
#[verifier::ext_equal]
pub struct StreamView {
    pub conn: u16,
    pub att: u16,
    pub frames: Seq<Seq<u8>>,
}

impl View for Stream {
    type V = StreamView;

    open spec fn view(&self) -> StreamView {
        StreamView {
            conn: self.conn,
            att: self.att,
            frames: fields::frame_views(self.frames@),
        }
    }
}

/// The streams of `all`, each by its view.
pub open spec fn stream_views(all: Seq<Stream>) -> Seq<StreamView> {
    all.map_values(|s: Stream| s@)
}

/// The place of a stream among others, or how many there are.
pub open spec fn stream_place(all: Seq<StreamView>, conn: u16, att: u16) -> nat
    decreases all.len(),
{
    if all.len() == 0 || (all[0].conn == conn && all[0].att == att) {
        0
    } else {
        1 + stream_place(all.skip(1), conn, att)
    }
}

/// The place of a stream is the first that is its own.
proof fn stream_place_is_first(all: Seq<StreamView>, conn: u16, att: u16)
    ensures
        stream_place(all, conn, att) <= all.len(),
        stream_place(all, conn, att) < all.len() ==> all[stream_place(all, conn, att) as int].conn
            == conn && all[stream_place(all, conn, att) as int].att == att,
        forall|j: int|
            0 <= j < stream_place(all, conn, att) ==> !((#[trigger] all[j]).conn == conn
                && all[j].att == att),
    decreases all.len(),
{
    if all.len() > 0 && !(all[0].conn == conn && all[0].att == att) {
        stream_place_is_first(all.skip(1), conn, att);
        assert forall|j: int| 0 <= j < stream_place(all, conn, att) implies !((
        #[trigger] all[j]).conn == conn && all[j].att == att) by {
            if j > 0 {
                assert(all.skip(1)[j - 1] == all[j]);
            }
        }
        if stream_place(all, conn, att) < all.len() {
            assert(all.skip(1)[stream_place(all, conn, att) - 1] == all[stream_place(
                all,
                conn,
                att,
            ) as int]);
        }
    }
}

/// Only one place is the first.
proof fn stream_place_unique(all: Seq<StreamView>, conn: u16, att: u16, k: int)
    requires
        0 <= k <= all.len(),
        k < all.len() ==> all[k].conn == conn && all[k].att == att,
        forall|j: int|
            0 <= j < k ==> !((#[trigger] all[j]).conn == conn && all[j].att == att),
    ensures
        stream_place(all, conn, att) == k,
{
    stream_place_is_first(all, conn, att);
    let p = stream_place(all, conn, att) as int;
    if p < k {
        assert(all[p].conn == conn);
    } else if k < p {
        assert(all[k].conn == conn);
    }
}

/// The reports of a stream, where it is known.
pub open spec fn frames_of(all: Seq<StreamView>, conn: u16, att: u16) -> Option<Seq<Seq<u8>>> {
    let at = stream_place(all, conn, att) as int;
    if at < all.len() {
        Some(all[at].frames)
    } else {
        None
    }
}

/// The streams with one set to these reports: the one that was known is replaced.
pub open spec fn with_frames(
    all: Seq<StreamView>,
    conn: u16,
    att: u16,
    frames: Seq<Seq<u8>>,
) -> Seq<StreamView> {
    let at = stream_place(all, conn, att) as int;
    if at < all.len() {
        all.update(at, StreamView { conn, att, frames })
    } else {
        all.push(StreamView { conn, att, frames })
    }
}

/// One phase of a recording.
#[derive(Debug)]
pub struct Recording {
    pub streams: Vec<Stream>,
}

impl View for Recording {
    type V = Seq<StreamView>;

    open spec fn view(&self) -> Seq<StreamView> {
        stream_views(self.streams@)
    }
}

/// The streams that a recording of `links` has, with nothing in them yet.
pub open spec fn empty_streams(links: Seq<Link>) -> Seq<StreamView>
    decreases links.len(),
{
    if links.len() == 0 {
        seq![]
    } else {
        with_frames(empty_streams(links.drop_last()), links.last().conn, links.last().att, seq![])
    }
}

/// What a packet adds to a recording: a notification on one of its streams is kept, and
/// nothing else is. Both handles tell streams apart: that of the connection separates
/// the halves, that of the attribute the streams of one half.
pub open spec fn with_packet(all: Seq<StreamView>, p: acl::AclPacketView) -> Seq<StreamView> {
    if p.cid != CID_ATT {
        all
    } else {
        match acl::notification_of(p.payload) {
            Some(n) => match frames_of(all, p.conn_handle, n.handle) {
                Some(frames) => with_frames(
                    all,
                    p.conn_handle,
                    n.handle,
                    frames.push(n.value),
                ),
                None => all,
            },
            None => all,
        }
    }
}

/// Whether no stream occurs twice: no two have both handles in common.
pub open spec fn distinct(all: Seq<StreamView>) -> bool {
    forall|i: int, j: int|
        0 <= i < j < all.len() ==> ((#[trigger] all[i]).conn != (#[trigger] all[j]).conn
            || all[i].att != all[j].att)
}

/// Setting the reports of a stream adds it only where it was not there yet.
pub proof fn setting_keeps_streams_apart(
    all: Seq<StreamView>,
    conn: u16,
    att: u16,
    frames: Seq<Seq<u8>>,
)
    requires
        distinct(all),
    ensures
        distinct(with_frames(all, conn, att, frames)),
{
    let n = with_frames(all, conn, att, frames);
    stream_place_is_first(all, conn, att);
    assert forall|i: int, j: int| 0 <= i < j < n.len() implies (#[trigger] n[i]).conn != (
    #[trigger] n[j]).conn || n[i].att != n[j].att by {
        if j < all.len() {
            assert(all[i].conn != all[j].conn || all[i].att != all[j].att);
        } else {
            assert(!(all[i].conn == conn && all[i].att == att));
        }
    }
}

/// A recording of some links has each stream once, however often it is among them.
pub proof fn a_recording_begins_with_streams_apart(links: Seq<Link>)
    ensures
        distinct(empty_streams(links)),
    decreases links.len(),
{
    if links.len() > 0 {
        a_recording_begins_with_streams_apart(links.drop_last());
        setting_keeps_streams_apart(
            empty_streams(links.drop_last()),
            links.last().conn,
            links.last().att,
            seq![],
        );
    }
}

/// No packet makes a stream occur twice.
pub proof fn a_packet_keeps_streams_apart(all: Seq<StreamView>, p: acl::AclPacketView)
    requires
        distinct(all),
    ensures
        distinct(with_packet(all, p)),
{
    if p.cid == CID_ATT {
        if let Some(n) = acl::notification_of(p.payload) {
            if let Some(frames) = frames_of(all, p.conn_handle, n.handle) {
                setting_keeps_streams_apart(
                    all,
                    p.conn_handle,
                    n.handle,
                    frames.push(n.value),
                );
            }
        }
    }
}

impl Recording {
    /// The place of a stream.
    fn find(&self, conn: u16, att: u16) -> (i: usize)
        ensures
            i == stream_place(self@, conn, att),
            i <= self.streams@.len(),
    {
        let mut i: usize = 0;
        while i < self.streams.len()
            invariant
                i <= self.streams@.len(),
                forall|j: int|
                    0 <= j < i ==> !((#[trigger] self@[j]).conn == conn && self@[j].att == att),
            decreases self.streams@.len() - i,
        {
            assert(self@[i as int] == self.streams@[i as int]@);
            if self.streams[i].conn == conn && self.streams[i].att == att {
                proof {
                    stream_place_unique(self@, conn, att, i as int);
                }
                return i;
            }
            i += 1;
        }
        proof {
            stream_place_unique(self@, conn, att, i as int);
        }
        i
    }

    /// Set the reports of a stream.
    pub fn set(&mut self, conn: u16, att: u16, frames: Vec<Vec<u8>>)
        ensures
            final(self)@ == with_frames(
                old(self)@,
                conn,
                att,
                fields::frame_views(frames@),
            ),
            distinct(old(self)@) ==> distinct(final(self)@),
    {
        proof {
            if distinct(self@) {
                setting_keeps_streams_apart(self@, conn, att, fields::frame_views(frames@));
            }
        }
        let ghost before = self.streams@;
        let i: usize = self.find(conn, att);
        let s = Stream { conn, att, frames };
        let ghost v = s@;
        if i < self.streams.len() {
            self.streams.set(i, s);
            assert(stream_views(self.streams@) =~= stream_views(before).update(i as int, v));
        } else {
            self.streams.push(s);
            assert(stream_views(self.streams@) =~= stream_views(before).push(v));
        }
    }

    /// Nothing recorded yet.
    pub fn new() -> (r: Recording)
        ensures
            r@ == Seq::<StreamView>::empty(),
    {
        let r = Recording { streams: Vec::new() };
        assert(stream_views(r.streams@) =~= seq![]);
        r
    }

    /// Begin a recording of these streams.
    pub fn of(links: &[Link]) -> (r: Recording)
        ensures
            r@ == empty_streams(links@),
            distinct(r@),
    {
        proof {
            a_recording_begins_with_streams_apart(links@);
        }
        let mut r = Recording::new();
        let mut i: usize = 0;
        assert(links@.take(0) =~= seq![]);
        while i < links.len()
            invariant
                i <= links@.len(),
                r@ == empty_streams(links@.take(i as int)),
            decreases links@.len() - i,
        {
            assert(links@.take(i + 1).drop_last() =~= links@.take(i as int));
            let nothing: Vec<Vec<u8>> = Vec::new();
            assert(fields::frame_views(nothing@) =~= seq![]);
            r.set(links[i].conn, links[i].att, nothing);
            i += 1;
        }
        assert(links@.take(i as int) =~= links@);
        r
    }

    /// Take one packet into account.
    pub fn packet(&mut self, p: &AclPacket)
        ensures
            final(self)@ == with_packet(old(self)@, p@),
            distinct(old(self)@) ==> distinct(final(self)@),
    {
        proof {
            if distinct(self@) {
                a_packet_keeps_streams_apart(self@, p@);
            }
        }
        if p.cid != CID_ATT {
            return;
        }
        let n = match parse_notification(p.payload.as_slice()) {
            Some(n) => n,
            None => {
                return;
            },
        };
        let ghost before = self.streams@;
        let i: usize = self.find(p.conn_handle, n.handle);
        if i < self.streams.len() {
            proof {
                stream_place_is_first(self@, p.conn_handle, n.handle);
            }
            let ghost frames = self.streams@[i as int].frames@;
            let ghost v = n.value@;
            assert(self@[i as int] == self.streams@[i as int]@);
            self.streams[i].frames.push(n.value);
            assert(fields::frame_views(self.streams@[i as int].frames@) =~= fields::frame_views(
                frames,
            ).push(v));
            assert(stream_views(self.streams@) =~= with_packet(stream_views(before), p@));
        }
    }

    /// The reports of a stream, where it is known.
    pub fn frames(&self, conn: u16, att: u16) -> (r: Option<&Vec<Vec<u8>>>)
        ensures
            match r {
                Some(f) => frames_of(self@, conn, att) == Some(fields::frame_views(f@)),
                None => frames_of(self@, conn, att) is None,
            },
    {
        let i: usize = self.find(conn, att);
        if i < self.streams.len() {
            assert(self@[i as int] == self.streams@[i as int]@);
            Some(&self.streams[i].frames)
        } else {
            None
        }
    }
}

/// A copy of some reports.
fn copy_frames(frames: &Vec<Vec<u8>>) -> (v: Vec<Vec<u8>>)
    ensures
        fields::frame_views(v@) == fields::frame_views(frames@),
{
    let mut v: Vec<Vec<u8>> = Vec::new();
    let mut i: usize = 0;
    assert(fields::frame_views(v@) =~= fields::frame_views(frames@).take(0));
    while i < frames.len()
        invariant
            i <= frames@.len(),
            fields::frame_views(v@) == fields::frame_views(frames@).take(i as int),
        decreases frames@.len() - i,
    {
        let ghost before = fields::frame_views(v@);
        let f = vstd::slice::slice_to_vec(frames[i].as_slice());
        let ghost fv = f@;
        v.push(f);
        assert(fields::frame_views(v@) =~= before.push(fv));
        i += 1;
        assert(fields::frame_views(v@) =~= fields::frame_views(frames@).take(i as int));
    }
    assert(fields::frame_views(v@) =~= fields::frame_views(frames@));
    v
}

/// The phases of `all`, each by its view.
pub open spec fn recording_views(all: Seq<Recording>) -> Seq<Seq<StreamView>> {
    all.map_values(|r: Recording| r@)
}

/// The reports of a stream in a phase, or none where it is not known there.
pub open spec fn frames_or_none(phase: Seq<StreamView>, conn: u16, att: u16) -> Seq<Seq<u8>> {
    match frames_of(phase, conn, att) {
        Some(f) => f,
        None => seq![],
    }
}

/// The lists of reports of `all`, each by its view.
pub open spec fn frames_views(all: Seq<Vec<Vec<u8>>>) -> Seq<Seq<Seq<u8>>> {
    all.map_values(|f: Vec<Vec<u8>>| fields::frame_views(f@))
}

/// The reports of one stream, phase by phase.
pub fn rec_phases(rec: &[Recording], conn: u16, att: u16) -> (v: Vec<Vec<Vec<u8>>>)
    ensures
        frames_views(v@) == recording_views(rec@).map_values(
            |p: Seq<StreamView>| frames_or_none(p, conn, att),
        ),
{
    let ghost f = |p: Seq<StreamView>| frames_or_none(p, conn, att);
    let ghost all = recording_views(rec@).map_values(f);
    let mut v: Vec<Vec<Vec<u8>>> = Vec::new();
    let mut i: usize = 0;
    assert(frames_views(v@) =~= all.take(0));
    while i < rec.len()
        invariant
            i <= rec@.len(),
            f == (|p: Seq<StreamView>| frames_or_none(p, conn, att)),
            all == recording_views(rec@).map_values(f),
            frames_views(v@) == all.take(i as int),
        decreases rec@.len() - i,
    {
        let ghost before = frames_views(v@);
        let frames = match rec[i].frames(conn, att) {
            Some(f) => copy_frames(f),
            None => Vec::new(),
        };
        let ghost fv = fields::frame_views(frames@);
        assert(all[i as int] =~= fv);
        v.push(frames);
        assert(frames_views(v@) =~= before.push(fv));
        i += 1;
        assert(frames_views(v@) =~= all.take(i as int));
    }
    assert(frames_views(v@) =~= all);
    v
}

/// The byte at `i` of a report, where it reaches that far.
pub open spec fn byte_of(frame: Seq<u8>, i: int) -> Option<u8> {
    if 0 <= i < frame.len() {
        Some(frame[i])
    } else {
        None
    }
}

/// Whether byte `i` ever differs from what it was in the first report. One that never
/// does cannot hold a reading, whatever the packing.
pub open spec fn varies(frames: Seq<Seq<u8>>, i: int) -> bool {
    exists|j: int|
        0 <= j < frames.len() && byte_of(#[trigger] frames[j], i) != byte_of(frames[0], i)
}

/// Whether byte `i` ever varies.
pub fn is_live(frames: &[Vec<u8>], i: usize) -> (r: bool)
    ensures
        r == varies(fields::frame_views(frames@), i as int),
{
    let ghost all = fields::frame_views(frames@);
    if frames.len() == 0 {
        return false;
    }
    let first: Option<u8> = if i < frames[0].len() {
        Some(frames[0][i])
    } else {
        None
    };
    assert(all[0] == frames@[0]@);
    assert(first == byte_of(all[0], i as int));
    let mut j: usize = 0;
    while j < frames.len()
        invariant
            j <= frames@.len(),
            all == fields::frame_views(frames@),
            first == byte_of(all[0], i as int),
            forall|k: int| 0 <= k < j ==> byte_of(#[trigger] all[k], i as int) == first,
        decreases frames@.len() - j,
    {
        let b: Option<u8> = if i < frames[j].len() {
            Some(frames[j][i])
        } else {
            None
        };
        assert(all[j as int] == frames@[j as int]@);
        let differs: bool = match (b, first) {
            (Some(x), Some(y)) => x != y,
            (None, None) => false,
            _ => true,
        };
        if differs {
            assert(byte_of(all[j as int], i as int) != byte_of(all[0], i as int));
            return true;
        }
        j += 1;
    }
    false
}

/// How many bytes from `from` up to `to` ever vary.
pub open spec fn live_bytes(frames: Seq<Seq<u8>>, from: int, to: int) -> nat
    decreases to - from,
{
    if from >= to {
        0
    } else {
        live_bytes(frames, from, to - 1) + (if varies(frames, to - 1) {
            1nat
        } else {
            0
        })
    }
}

/// Count the bytes from `from` up to `to` that ever vary.
pub fn live_count(frames: &[Vec<u8>], from: usize, to: usize) -> (n: usize)
    ensures
        n == live_bytes(fields::frame_views(frames@), from as int, to as int),
{
    let mut n: usize = 0;
    let mut i: usize = from;
    if from >= to {
        return 0;
    }
    while i < to
        invariant
            from <= i <= to,
            n == live_bytes(fields::frame_views(frames@), from as int, i as int),
            n <= i - from,
        decreases to - i,
    {
        if is_live(frames, i) {
            n += 1;
        }
        i += 1;
    }
    n
}

/// A map of the first `width` bytes: `#` where one varies, `.` where it does not.
pub open spec fn liveness(frames: Seq<Seq<u8>>, width: nat) -> Seq<char> {
    Seq::new(
        width,
        |i: int|
            if varies(frames, i) {
                '#'
            } else {
                '.'
            },
    )
}

/// Draw the map of the first `width` bytes.
pub fn live_map(frames: &[Vec<u8>], width: usize) -> (s: String)
    ensures
        s@ == liveness(fields::frame_views(frames@), width as nat),
{
    let mut s = String::new();
    let mut i: usize = 0;
    assert(s@ =~= liveness(fields::frame_views(frames@), 0));
    while i < width
        invariant
            i <= width,
            s@ == liveness(fields::frame_views(frames@), i as nat),
        decreases width - i,
    {
        if is_live(frames, i) {
            s.push('#');
        } else {
            s.push('.');
        }
        i += 1;
        assert(s@ =~= liveness(fields::frame_views(frames@), i as nat));
    }
    s
}

/// Where the part of a report begins that stays zero unless its layout changed.
pub const TAIL: usize = 45;

/// Whether any report has anything but zero from `TAIL` on.
pub open spec fn tail_speaks(frames: Seq<Seq<u8>>) -> bool {
    exists|j: int, i: int|
        #![trigger frames[j][i]]
        0 <= j < frames.len() && TAIL <= i < frames[j].len() && frames[j][i] != 0
}

/// Whether any report has anything but zero in its tail.
pub fn tail_nonzero(frames: &[Vec<u8>]) -> (r: bool)
    ensures
        r == tail_speaks(fields::frame_views(frames@)),
{
    let ghost all = fields::frame_views(frames@);
    let mut j: usize = 0;
    while j < frames.len()
        invariant
            j <= frames@.len(),
            all == fields::frame_views(frames@),
            forall|k: int, i: int|
                #![trigger all[k][i]]
                0 <= k < j && TAIL <= i < all[k].len() ==> all[k][i] == 0,
        decreases frames@.len() - j,
    {
        assert(all[j as int] == frames@[j as int]@);
        let mut i: usize = TAIL;
        while i < frames[j].len()
            invariant
                TAIL <= i,
                j < frames@.len(),
                all == fields::frame_views(frames@),
                all[j as int] == frames@[j as int]@,
                forall|k: int| TAIL <= k < i && k < all[j as int].len() ==> all[j as int][k] == 0,
            decreases frames@[j as int]@.len() - i,
        {
            if frames[j][i] != 0 {
                assert(all[j as int][i as int] != 0);
                return true;
            }
            i += 1;
        }
        j += 1;
    }
    false
}

/// What the reports of one stream look like.
#[derive(Debug, Clone, Copy, PartialEq, Eq, Structural)]
pub struct StreamShape {
    pub frames: usize,
    /// How long a report is.
    pub width: usize,
    /// How many motion bytes the controller says it sends.
    pub motion_len: u8,
    /// How many bytes vary.
    pub live: usize,
    /// How many of those are in the tail.
    pub tail_live: usize,
    pub tail_nonzero: bool,
}

/// Where the controller says how many motion bytes it sends. A report of the left half
/// is shifted by one byte throughout.
pub open spec fn motion_len_at(side: Side) -> int {
    match side {
        Side::Left => 14,
        Side::Right => 15,
    }
}

/// The shape of a stream that has sent anything.
pub open spec fn shape_of_frames(side: Side, frames: Seq<Seq<u8>>) -> Option<StreamShape> {
    if frames.len() == 0 {
        None
    } else {
        Some(
            StreamShape {
                frames: frames.len() as usize,
                width: frames[0].len() as usize,
                motion_len: match byte_of(frames[0], motion_len_at(side)) {
                    Some(b) => b,
                    None => 0,
                },
                live: live_bytes(frames, 0, frames[0].len() as int) as usize,
                tail_live: live_bytes(frames, TAIL as int, frames[0].len() as int) as usize,
                tail_nonzero: tail_speaks(frames),
            },
        )
    }
}

/// Measure the shape of a stream.
pub fn stream_shape(side: Side, frames: &[Vec<u8>]) -> (s: Option<StreamShape>)
    ensures
        s == shape_of_frames(side, fields::frame_views(frames@)),
{
    let ghost all = fields::frame_views(frames@);
    if frames.len() == 0 {
        return None;
    }
    assert(all[0] == frames@[0]@);
    let width: usize = frames[0].len();
    let at: usize = match side {
        Side::Left => 14,
        Side::Right => 15,
    };
    let motion_len: u8 = if at < width {
        frames[0][at]
    } else {
        0
    };
    Some(
        StreamShape {
            frames: frames.len(),
            width,
            motion_len,
            live: live_count(frames, 0, width),
            tail_live: live_count(frames, TAIL, width),
            tail_nonzero: tail_nonzero(frames),
        },
    )
}

/// The offset between `from` and `to` whose 16-bit field reached furthest while moving,
/// among those that moved at all and moved far more than at rest; of several the last.
pub open spec fn strongest(
    moving: Seq<Seq<u8>>,
    rest: Seq<Seq<u8>>,
    from: int,
    to: int,
) -> Option<(int, int)>
    decreases to - from,
{
    if from >= to {
        None
    } else {
        let off = to - 1;
        let best = strongest(moving, rest, from, off);
        let reach = fields::spread(fields::field_series(moving, off));
        let still = fields::spread(fields::field_series(rest, off));
        if reach > 400 && reach > 4 * still {
            match best {
                Some((_, b)) if b > reach => best,
                _ => Some((off, reach)),
            }
        } else {
            best
        }
    }
}

/// Find the offset whose field responded most strongly.
pub fn strongest_offset(moving: &[Vec<u8>], rest: &[Vec<u8>], from: usize, to: usize) -> (r: Option<
    (usize, i32),
>)
    requires
        to < usize::MAX,
    ensures
        match r {
            Some((off, reach)) => strongest(
                fields::frame_views(moving@),
                fields::frame_views(rest@),
                from as int,
                to as int,
            ) == Some((off as int, reach as int)),
            None => strongest(
                fields::frame_views(moving@),
                fields::frame_views(rest@),
                from as int,
                to as int,
            ) is None,
        },
{
    let mut best: Option<(usize, i32)> = None;
    let mut off: usize = from;
    if from >= to {
        return None;
    }
    while off < to
        invariant
            from <= off <= to < usize::MAX,
            match best {
                Some((o, reach)) => strongest(
                    fields::frame_views(moving@),
                    fields::frame_views(rest@),
                    from as int,
                    off as int,
                ) == Some((o as int, reach as int)),
                None => strongest(
                    fields::frame_views(moving@),
                    fields::frame_views(rest@),
                    from as int,
                    off as int,
                ) is None,
            },
        decreases to - off,
    {
        let reach: i32 = range_of(moving, off);
        let still: i32 = range_of(rest, off);
        if reach > 400 && reach > 4 * still {
            best = match best {
                Some((o, b)) => if b > reach {
                    Some((o, b))
                } else {
                    Some((off, reach))
                },
                None => Some((off, reach)),
            };
        }
        off += 1;
    }
    best
}

/// Whether a field of `width` bytes at `off` shares a byte with one of the three 16-bit
/// fields that begin at `base` and lie `stride` apart.
pub open spec fn overlaps(off: int, width: int, base: int, stride: int) -> bool {
    ||| off + width > base && base + 2 > off
    ||| off + width > base + stride && base + stride + 2 > off
    ||| off + width > base + 2 * stride && base + 2 * stride + 2 > off
}

/// Whether a field shares a byte with the accelerometer.
pub fn in_accel(off: usize, width: usize, base: usize, stride: usize) -> (r: bool)
    requires
        off + width <= usize::MAX,
        base + 2 * stride + 2 <= usize::MAX,
    ensures
        r == overlaps(off as int, width as int, base as int, stride as int),
{
    let end: usize = off + width;
    (end > base && base + 2 > off) || (end > base + stride && base + stride + 2 > off) || (end
        > base + 2 * stride && base + 2 * stride + 2 > off)
}

/// A field that moves under rotation and is still at rest.
#[derive(Debug, Clone, Copy, PartialEq, Eq)]
pub struct GyroCandidate {
    pub off: usize,
    pub codec: Codec,
    /// How far it reached in each of the three sweeps.
    pub reach: [i64; 3],
    pub rest: i64,
}

/// The furthest of three.
pub open spec fn furthest(r: Seq<i64>) -> i64 {
    let m = if r[1] > r[0] {
        r[1]
    } else {
        r[0]
    };
    if r[2] > m {
        r[2]
    } else {
        m
    }
}

/// Whether a field is a candidate: it moves, and far more under rotation than at rest.
/// Nothing is assumed of its scale.
pub open spec fn is_candidate(reach: Seq<i64>, rest: i64) -> bool {
    furthest(reach) >= 20 && furthest(reach) >= 6 * rest
}

/// Numbers without a bound.
pub open spec fn wide(all: Seq<i64>) -> Seq<int> {
    all.map_values(|x: i64| x as int)
}

/// Numbers of a machine.
pub open spec fn narrow(all: Seq<int>) -> Seq<i64> {
    all.map_values(|x: int| x as i64)
}

/// How far a field reaches at rest, in the first of the `phases`, and in the three sweeps that
/// follow, where it is a candidate and does not share a byte with the accelerometer.
pub open spec fn gyro_of(
    codec: Codec,
    phases: Seq<Seq<Seq<u8>>>,
    off: int,
    accel: Option<(usize, usize)>,
) -> Option<(int, Seq<int>)> {
    let rest = fields::spread(fields::series(codec, phases[0], off));
    let reach = seq![
        fields::spread(fields::series(codec, phases[1], off)),
        fields::spread(fields::series(codec, phases[2], off)),
        fields::spread(fields::series(codec, phases[3], off)),
    ];
    let hidden = accel matches Some((b, st)) && overlaps(
        off,
        codec.size() as int,
        b as int,
        st as int,
    );
    if !hidden && is_candidate(narrow(reach), rest as i64) {
        Some((rest, reach))
    } else {
        None
    }
}

/// Measure one field over the phases of a recording: at rest, and in the three sweeps.
/// Nothing where it is no candidate, or overlaps the accelerometer, which responds to
/// rotation too.
pub fn gyro_candidate(
    phases: &[Vec<Vec<u8>>],
    codec: Codec,
    off: usize,
    accel: Option<(usize, usize)>,
) -> (r: Option<GyroCandidate>)
    requires
        phases@.len() == 4,
        off + codec.size() <= usize::MAX,
        accel matches Some((b, st)) ==> b + 2 * st + 2 <= usize::MAX,
    ensures
        match r {
            Some(c) => {
                &&& c.off == off && c.codec == codec
                &&& gyro_of(codec, frames_views(phases@), off as int, accel) == Some(
                    (c.rest as int, wide(c.reach@)),
                )
            },
            None => gyro_of(codec, frames_views(phases@), off as int, accel) is None,
        },
{
    let w: usize = codec.width();
    if let Some((b, st)) = accel {
        if in_accel(off, w, b, st) {
            return None;
        }
    }
    let rest: i64 = span_of(codec, phases[0].as_slice(), off);
    let a: i64 = span_of(codec, phases[1].as_slice(), off);
    let b: i64 = span_of(codec, phases[2].as_slice(), off);
    let c: i64 = span_of(codec, phases[3].as_slice(), off);
    let reach: [i64; 3] = [a, b, c];
    assert(narrow(wide(reach@)) =~= reach@);
    assert(wide(reach@) =~= seq![a as int, b as int, c as int]);
    let m: i64 = if b > a {
        b
    } else {
        a
    };
    let best: i64 = if c > m {
        c
    } else {
        m
    };
    if best < 20 || best < 6 * rest {
        return None;
    }
    Some(GyroCandidate { off, codec, reach, rest })
}

/// How far a packed field reaches over one phase of a recording.
fn packed_span(frames: &[Vec<u8>], from: usize, off: usize, width: usize) -> (s: i64)
    requires
        1 <= width <= 56,
        off + width + 7 <= usize::MAX,
        forall|i: int| 0 <= i < frames@.len() ==> from <= (#[trigger] frames@[i])@.len(),
    ensures
        s == fields::spread(
            fields::packed_series(
                fields::frame_views(frames@),
                from as int,
                off as int,
                width as nat,
            ),
        ),
        0 <= s < 0x100_0000_0000_0000,
{
    proof {
        power2::lemma2_to64();
        power2::lemma2_to64_rest();
        power2::lemma_pow2_unfold(width as nat);
        if width < 56 {
            power2::lemma_pow2_strictly_increases(width as nat, 56);
        }
    }
    match packed_extremes(frames, from, off, width) {
        Some((lo, hi)) => hi - lo,
        None => 0,
    }
}

/// Whether a packed field of `width` bits moves like a rotation: over an eighth of what it
/// can hold, but not over nearly all of it, as noise and counters do, and far more than at
/// rest.
pub open spec fn is_packed_candidate(reach: Seq<i64>, rest: i64, width: nat) -> bool {
    let full = power2::pow2(width) as int;
    &&& furthest(reach) >= full / 8
    &&& furthest(reach) <= full * 9 / 10
    &&& furthest(reach) >= 4 * rest
}

/// How far a packed field reaches at rest and in the three sweeps, and whether it is a
/// candidate by that.
#[derive(Debug, Clone, Copy, PartialEq, Eq)]
pub struct PackedCandidate {
    /// How far it reached in each of the three sweeps.
    pub reach: [i64; 3],
    pub rest: i64,
    pub moves: bool,
}

/// How far a packed field reaches at rest, in the first of the `phases`, and in the three
/// sweeps that follow, and whether it is a candidate by that.
pub open spec fn packed_of(phases: Seq<Seq<Seq<u8>>>, from: int, off: int, width: nat) -> (
    int,
    Seq<int>,
    bool,
) {
    let rest = fields::spread(fields::packed_series(phases[0], from, off, width));
    let reach = seq![
        fields::spread(fields::packed_series(phases[1], from, off, width)),
        fields::spread(fields::packed_series(phases[2], from, off, width)),
        fields::spread(fields::packed_series(phases[3], from, off, width)),
    ];
    (rest, reach, is_packed_candidate(narrow(reach), rest as i64, width))
}

/// Measure one packed field over the phases of a recording, counted from byte `from` of
/// each report.
pub fn packed_candidate(phases: &[Vec<Vec<u8>>], from: usize, off: usize, width: usize) -> (c:
    PackedCandidate)
    requires
        phases@.len() == 4,
        1 <= width <= 56,
        off + width + 7 <= usize::MAX,
        forall|p: int, i: int|
            0 <= p < 4 && 0 <= i < phases@[p]@.len() ==> from <= (#[trigger] phases@[p]@[i])@.len(),
    ensures
        (c.rest as int, wide(c.reach@), c.moves) == packed_of(
            frames_views(phases@),
            from as int,
            off as int,
            width as nat,
        ),
{
    let rest: i64 = packed_span(phases[0].as_slice(), from, off, width);
    let a: i64 = packed_span(phases[1].as_slice(), from, off, width);
    let b: i64 = packed_span(phases[2].as_slice(), from, off, width);
    let c: i64 = packed_span(phases[3].as_slice(), from, off, width);
    let reach: [i64; 3] = [a, b, c];
    assert(narrow(wide(reach@)) =~= reach@);
    assert(wide(reach@) =~= seq![a as int, b as int, c as int]);
    let m: i64 = if b > a {
        b
    } else {
        a
    };
    let best: i64 = if c > m {
        c
    } else {
        m
    };
    proof {
        power2::lemma2_to64();
        power2::lemma2_to64_rest();
        if width < 56 {
            power2::lemma_pow2_strictly_increases(width as nat, 56);
        }
    }
    let full: i64 = power(width) as i64;
    let moves: bool = best >= full / 8 && best <= full * 9 / 10 && best >= 4 * rest;
    PackedCandidate { reach, rest, moves }
}

/// Marks a capture whose streams are told apart by both handles. An older one begins
/// with the number of its phases, which is small.
pub const CAPTURE_V2: u8 = 0xFE;

/// Reports, each behind its length.
pub open spec fn frames_bytes(frames: Seq<Seq<u8>>) -> Seq<u8>
    decreases frames.len(),
{
    if frames.len() == 0 {
        seq![]
    } else {
        frames_bytes(frames.drop_last()) + seq![bytes::low8(frames.last().len())] + frames.last()
    }
}

/// The byte that stands for a half.
pub open spec fn side_byte(s: Side) -> u8 {
    match s {
        Side::Left => 0,
        Side::Right => 1,
    }
}

/// A stream: its half, its two handles, how many reports follow, and the reports.
pub open spec fn stream_bytes(l: Link, frames: Seq<Seq<u8>>) -> Seq<u8> {
    seq![side_byte(l.side)] + bytes::le16(l.conn) + bytes::le16(l.att) + bytes::le32(
        (frames.len() % 0x1_0000_0000) as u32,
    ) + frames_bytes(frames)
}

/// The streams of a phase, in the order of the links.
pub open spec fn streams_bytes(links: Seq<Link>, phase: Seq<StreamView>) -> Seq<u8>
    decreases links.len(),
{
    if links.len() == 0 {
        seq![]
    } else {
        streams_bytes(links.drop_last(), phase) + stream_bytes(
            links.last(),
            frames_or_none(phase, links.last().conn, links.last().att),
        )
    }
}

/// The phases, each behind the number of its streams.
pub open spec fn phases_bytes(links: Seq<Link>, rec: Seq<Seq<StreamView>>) -> Seq<u8>
    decreases rec.len(),
{
    if rec.len() == 0 {
        seq![]
    } else {
        phases_bytes(links, rec.drop_last()) + seq![bytes::low8(links.len())] + streams_bytes(
            links,
            rec.last(),
        )
    }
}

/// A whole capture.
pub open spec fn capture_bytes(links: Seq<Link>, rec: Seq<Seq<StreamView>>) -> Seq<u8> {
    seq![CAPTURE_V2, 2u8, bytes::low8(rec.len())] + phases_bytes(links, rec)
}

/// Append reports, each behind its length.
fn push_frames(out: &mut Vec<u8>, frames: &Vec<Vec<u8>>)
    ensures
        final(out)@ == old(out)@ + frames_bytes(fields::frame_views(frames@)),
{
    let ghost all = fields::frame_views(frames@);
    let ghost start = out@;
    let mut i: usize = 0;
    assert(all.take(0) =~= seq![]);
    assert(out@ =~= start + frames_bytes(all.take(0)));
    while i < frames.len()
        invariant
            i <= frames@.len(),
            all == fields::frame_views(frames@),
            out@ == start + frames_bytes(all.take(i as int)),
        decreases frames@.len() - i,
    {
        let ghost before = frames_bytes(all.take(i as int));
        assert(all.take(i + 1).drop_last() =~= all.take(i as int));
        assert(all[i as int] == frames@[i as int]@);
        let n: u8 = len8(frames[i].len());
        out.push(n);
        assert(out@ =~= start + (before + seq![n]));
        let ghost b = before + seq![n];
        push_all(out, frames[i].as_slice());
        proof {
            bytes::concat_associates(start, b, all[i as int]);
        }
        i += 1;
    }
    assert(all.take(i as int) =~= all);
}

/// Append the streams of a phase.
fn push_streams(out: &mut Vec<u8>, links: &[Link], phase: &Recording)
    ensures
        final(out)@ == old(out)@ + streams_bytes(links@, phase@),
{
    let ghost start = out@;
    let mut i: usize = 0;
    assert(links@.take(0) =~= seq![]);
    assert(out@ =~= start + streams_bytes(links@.take(0), phase@));
    while i < links.len()
        invariant
            i <= links@.len(),
            out@ == start + streams_bytes(links@.take(i as int), phase@),
        decreases links@.len() - i,
    {
        let ghost before = streams_bytes(links@.take(i as int), phase@);
        assert(links@.take(i + 1).drop_last() =~= links@.take(i as int));
        let l = links[i];
        let ghost frames = frames_or_none(phase@, l.conn, l.att);
        let mut s: Vec<u8> = Vec::new();
        s.push(
            match l.side {
                Side::Left => 0,
                Side::Right => 1,
            },
        );
        assert(s@ =~= seq![side_byte(l.side)]);
        push16(&mut s, l.conn);
        push16(&mut s, l.att);
        match phase.frames(l.conn, l.att) {
            Some(f) => {
                assert(f@.len() == frames.len());
                push32(&mut s, (f.len() as u64 % 0x1_0000_0000) as u32);
                push_frames(&mut s, f);
            },
            None => {
                push32(&mut s, 0);
                assert(frames_bytes(frames) =~= seq![]);
                assert(s@ =~= s@ + frames_bytes(frames));
            },
        }
        assert(s@ == stream_bytes(l, frames));
        push_all(out, s.as_slice());
        proof {
            bytes::concat_associates(start, before, s@);
        }
        i += 1;
    }
    assert(links@.take(i as int) =~= links@);
}

/// A capture as it goes to a file, so that a recording can be analysed again without the
/// hardware.
pub fn encode_capture(links: &[Link], rec: &[Recording]) -> (out: Vec<u8>)
    ensures
        out@ == capture_bytes(links@, recording_views(rec@)),
{
    let ghost all = recording_views(rec@);
    let mut out: Vec<u8> = Vec::new();
    out.push(CAPTURE_V2);
    out.push(2);
    out.push(len8(rec.len()));
    let ghost start = out@;
    assert(start =~= seq![CAPTURE_V2, 2u8, bytes::low8(all.len())]);
    let mut i: usize = 0;
    assert(all.take(0) =~= seq![]);
    assert(out@ =~= start + phases_bytes(links@, all.take(0)));
    while i < rec.len()
        invariant
            i <= rec@.len(),
            all == recording_views(rec@),
            out@ == start + phases_bytes(links@, all.take(i as int)),
        decreases rec@.len() - i,
    {
        let ghost before = phases_bytes(links@, all.take(i as int));
        assert(all.take(i + 1).drop_last() =~= all.take(i as int));
        assert(all[i as int] == rec@[i as int]@);
        let n: u8 = len8(links.len());
        out.push(n);
        assert(out@ =~= start + (before + seq![n]));
        let ghost b = before + seq![n];
        push_streams(&mut out, links, &rec[i]);
        proof {
            bytes::concat_associates(start, b, streams_bytes(links@, all[i as int]));
        }
        i += 1;
    }
    assert(all.take(i as int) =~= all);
    out
}

/// `count` reports at the start of `buf`, each behind its length, and what follows them.
pub open spec fn frames_in(buf: Seq<u8>, count: nat) -> Option<(Seq<Seq<u8>>, Seq<u8>)>
    decreases count,
{
    if count == 0 {
        Some((seq![], buf))
    } else {
        match frames_in(buf, (count - 1) as nat) {
            Some((frames, rest)) => if rest.len() == 0 || rest.len() < 1 + rest[0] {
                None
            } else {
                Some((frames.push(rest.subrange(1, 1 + rest[0])), rest.skip(1 + rest[0])))
            },
            None => None,
        }
    }
}

/// The stream at the start of `buf`, and what follows it. An older capture does not say
/// its handles: they are made up from its place.
pub open spec fn stream_in(buf: Seq<u8>, v2: bool, place: u8) -> Option<
    (Link, Seq<Seq<u8>>, Seq<u8>),
> {
    let head = if v2 {
        9int
    } else {
        5
    };
    if buf.len() < head {
        None
    } else {
        let side = if buf[0] == 1 {
            Side::Right
        } else {
            Side::Left
        };
        let link = if v2 {
            Link { conn: bytes::u16_at(buf, 1), side, att: bytes::u16_at(buf, 3) }
        } else {
            Link { conn: place as u16, side, att: HANDLE_INPUT_VALUE }
        };
        let count = bytes::u32_at(buf, head - 4) as nat;
        match frames_in(buf.skip(head), count) {
            Some((frames, rest)) => Some((link, frames, rest)),
            None => None,
        }
    }
}

/// `n` streams at the start of `buf`: their links, what they put into a phase, and what
/// follows them.
pub open spec fn streams_in(buf: Seq<u8>, v2: bool, n: nat) -> Option<
    (Seq<Link>, Seq<StreamView>, Seq<u8>),
>
    decreases n,
{
    if n == 0 {
        Some((seq![], seq![], buf))
    } else {
        match streams_in(buf, v2, (n - 1) as nat) {
            Some((links, phase, rest)) => match stream_in(rest, v2, (n - 1) as u8) {
                Some((l, frames, after)) => Some(
                    (links.push(l), with_frames(phase, l.conn, l.att, frames), after),
                ),
                None => None,
            },
            None => None,
        }
    }
}

/// `n` phases at the start of `buf`: the links of the first, every phase, and what follows
/// them.
pub open spec fn phases_in(buf: Seq<u8>, v2: bool, n: nat) -> Option<
    (Seq<Link>, Seq<Seq<StreamView>>, Seq<u8>),
>
    decreases n,
{
    if n == 0 {
        Some((seq![], seq![], buf))
    } else {
        match phases_in(buf, v2, (n - 1) as nat) {
            Some((links, phases, rest)) => if rest.len() == 0 {
                None
            } else {
                match streams_in(rest.skip(1), v2, rest[0] as nat) {
                    Some((l, phase, after)) => Some(
                        (
                            if n == 1 {
                                l
                            } else {
                                links
                            },
                            phases.push(phase),
                            after,
                        ),
                    ),
                    None => None,
                }
            },
            None => None,
        }
    }
}

/// The links and the phases of a capture, old or new; nothing where it is cut short.
pub open spec fn capture_of(buf: Seq<u8>) -> Option<(Seq<Link>, Seq<Seq<StreamView>>)> {
    if buf.len() == 0 {
        None
    } else {
        let v2 = buf[0] == CAPTURE_V2;
        let at = if v2 {
            2int
        } else {
            0
        };
        if buf.len() <= at {
            None
        } else {
            match phases_in(buf.skip(at + 1), v2, buf[at] as nat) {
                Some((links, phases, _)) => Some((links, phases)),
                None => None,
            }
        }
    }
}

/// Read reports from `at` on, and say where they end.
fn read_frames(buf: &[u8], at: usize, count: usize) -> (r: Option<(Vec<Vec<u8>>, usize)>)
    requires
        at <= buf@.len(),
    ensures
        match r {
            Some((frames, end)) => end <= buf@.len() && frames_in(
                buf@.skip(at as int),
                count as nat,
            ) == Some((fields::frame_views(frames@), buf@.skip(end as int))),
            None => frames_in(buf@.skip(at as int), count as nat) is None,
        },
{
    let ghost start = buf@.skip(at as int);
    let mut frames: Vec<Vec<u8>> = Vec::new();
    let mut i: usize = at;
    let mut k: usize = 0;
    assert(fields::frame_views(frames@) =~= seq![]);
    while k < count
        invariant
            k <= count,
            i <= buf@.len(),
            start == buf@.skip(at as int),
            frames_in(start, k as nat) == Some(
                (fields::frame_views(frames@), buf@.skip(i as int)),
            ),
        decreases count - k,
    {
        let ghost rest = buf@.skip(i as int);
        if buf.len() - i == 0 || buf.len() - i < 1 + buf[i] as usize {
            proof {
                assert(frames_in(start, (k + 1) as nat) is None);
                frames_in_stops(start, (k + 1) as nat, count as nat);
            }
            return None;
        }
        let n: usize = buf[i] as usize;
        let f = copy_range(buf, i + 1, i + 1 + n);
        let ghost before = fields::frame_views(frames@);
        assert(f@ =~= rest.subrange(1, 1 + rest[0]));
        assert(rest.skip(1 + rest[0]) =~= buf@.skip(i + 1 + n));
        let ghost fv = f@;
        frames.push(f);
        assert(fields::frame_views(frames@) =~= before.push(fv));
        i = i + 1 + n;
        k += 1;
    }
    Some((frames, i))
}

/// Where fewer reports cannot be read, more cannot either.
proof fn frames_in_stops(buf: Seq<u8>, few: nat, many: nat)
    requires
        few <= many,
        frames_in(buf, few) is None,
    ensures
        frames_in(buf, many) is None,
    decreases many,
{
    if few < many {
        frames_in_stops(buf, few, (many - 1) as nat);
    }
}

/// Read the stream at `at`, and say where it ends.
fn read_stream(buf: &[u8], at: usize, v2: bool, place: u8) -> (r: Option<
    (Link, Vec<Vec<u8>>, usize),
>)
    requires
        at <= buf@.len(),
    ensures
        match r {
            Some((l, frames, end)) => end <= buf@.len() && stream_in(
                buf@.skip(at as int),
                v2,
                place,
            ) == Some((l, fields::frame_views(frames@), buf@.skip(end as int))),
            None => stream_in(buf@.skip(at as int), v2, place) is None,
        },
{
    let ghost rest = buf@.skip(at as int);
    let head: usize = if v2 {
        9
    } else {
        5
    };
    if buf.len() - at < head {
        return None;
    }
    let side = if buf[at] == 1 {
        Side::Right
    } else {
        Side::Left
    };
    let link = if v2 {
        Link {
            conn: join16(buf[at + 1], buf[at + 2]),
            side,
            att: join16(buf[at + 3], buf[at + 4]),
        }
    } else {
        Link { conn: place as u16, side, att: HANDLE_INPUT_VALUE }
    };
    let c: usize = at + head - 4;
    let count: u32 = join32(buf[c], buf[c + 1], buf[c + 2], buf[c + 3]);
    assert(count == bytes::u32_at(rest, head - 4));
    assert(rest.skip(head as int) =~= buf@.skip(at + head));
    match read_frames(buf, at + head, count as usize) {
        Some((frames, end)) => Some((link, frames, end)),
        None => None,
    }
}

/// Where fewer streams cannot be read, more cannot either.
proof fn streams_in_stops(buf: Seq<u8>, v2: bool, few: nat, many: nat)
    requires
        few <= many,
        streams_in(buf, v2, few) is None,
    ensures
        streams_in(buf, v2, many) is None,
    decreases many,
{
    if few < many {
        streams_in_stops(buf, v2, few, (many - 1) as nat);
    }
}

/// Read `n` streams from `at` on, and say where they end.
fn read_streams(buf: &[u8], at: usize, v2: bool, n: u8) -> (r: Option<
    (Vec<Link>, Recording, usize),
>)
    requires
        at <= buf@.len(),
    ensures
        match r {
            Some((links, phase, end)) => end <= buf@.len() && streams_in(
                buf@.skip(at as int),
                v2,
                n as nat,
            ) == Some((links@, phase@, buf@.skip(end as int))),
            None => streams_in(buf@.skip(at as int), v2, n as nat) is None,
        },
{
    let ghost start = buf@.skip(at as int);
    let mut links: Vec<Link> = Vec::new();
    let mut phase = Recording::new();
    let mut i: usize = at;
    let mut k: u8 = 0;
    assert(links@ =~= seq![]);
    while k < n
        invariant
            k <= n,
            i <= buf@.len(),
            start == buf@.skip(at as int),
            streams_in(start, v2, k as nat) == Some((links@, phase@, buf@.skip(i as int))),
        decreases n - k,
    {
        match read_stream(buf, i, v2, k) {
            Some((l, frames, end)) => {
                links.push(l);
                phase.set(l.conn, l.att, frames);
                i = end;
            },
            None => {
                proof {
                    assert(streams_in(start, v2, (k + 1) as nat) is None);
                    streams_in_stops(start, v2, (k + 1) as nat, n as nat);
                }
                return None;
            },
        }
        k += 1;
    }
    Some((links, phase, i))
}

/// Where fewer phases cannot be read, more cannot either.
proof fn phases_in_stops(buf: Seq<u8>, v2: bool, few: nat, many: nat)
    requires
        few <= many,
        phases_in(buf, v2, few) is None,
    ensures
        phases_in(buf, v2, many) is None,
    decreases many,
{
    if few < many {
        phases_in_stops(buf, v2, few, (many - 1) as nat);
    }
}

/// Reload a capture, old or new; `None` where it is cut short.
pub fn decode_capture(buf: &[u8]) -> (r: Option<(Vec<Link>, Vec<Recording>)>)
    ensures
        match r {
            Some((links, rec)) => capture_of(buf@) == Some((links@, recording_views(rec@))),
            None => capture_of(buf@) is None,
        },
{
    if buf.len() == 0 {
        return None;
    }
    let v2: bool = buf[0] == CAPTURE_V2;
    let at: usize = if v2 {
        2
    } else {
        0
    };
    if buf.len() <= at {
        return None;
    }
    let n: u8 = buf[at];
    let ghost start = buf@.skip(at + 1);
    let mut links: Vec<Link> = Vec::new();
    let mut rec: Vec<Recording> = Vec::new();
    let mut i: usize = at + 1;
    let mut k: u8 = 0;
    assert(links@ =~= seq![]);
    assert(recording_views(rec@) =~= seq![]);
    while k < n
        invariant
            k <= n,
            i <= buf@.len(),
            v2 == (buf@[0] == CAPTURE_V2),
            at == if v2 {
                2int
            } else {
                0
            },
            at < buf@.len(),
            n == buf@[at as int],
            start == buf@.skip(at + 1),
            phases_in(start, v2, k as nat) == Some(
                (links@, recording_views(rec@), buf@.skip(i as int)),
            ),
        decreases n - k,
    {
        let ghost rest = buf@.skip(i as int);
        let ghost before = recording_views(rec@);
        if i == buf.len() {
            proof {
                assert(phases_in(start, v2, (k + 1) as nat) is None);
                phases_in_stops(start, v2, (k + 1) as nat, n as nat);
            }
            return None;
        }
        assert(rest.skip(1) =~= buf@.skip(i + 1));
        match read_streams(buf, i + 1, v2, buf[i]) {
            Some((l, phase, end)) => {
                let ghost pv = phase@;
                rec.push(phase);
                assert(recording_views(rec@) =~= before.push(pv));
                if k == 0 {
                    links = l;
                }
                i = end;
            },
            None => {
                proof {
                    assert(phases_in(start, v2, (k + 1) as nat) is None);
                    phases_in_stops(start, v2, (k + 1) as nat, n as nat);
                }
                return None;
            },
        }
        k += 1;
    }
    Some((links, rec))
}

/// Whether a recording fits the fields of a capture: not too many of anything, and no
/// report too long.
pub open spec fn fits_capture(links: Seq<Link>, rec: Seq<Seq<StreamView>>) -> bool {
    &&& rec.len() < 256
    &&& links.len() < 256
    &&& forall|p: int, i: int|
        0 <= p < rec.len() && 0 <= i < links.len() ==> fits_stream(
            #[trigger] frames_or_none(rec[p], links[i].conn, links[i].att),
        )
}

/// Whether the reports of one stream fit.
pub open spec fn fits_stream(frames: Seq<Seq<u8>>) -> bool {
    &&& frames.len() < 0x1_0000_0000
    &&& forall|j: int| 0 <= j < frames.len() ==> (#[trigger] frames[j]).len() < 256
}

/// A phase as a capture keeps it: only the streams of the links.
pub open spec fn kept(links: Seq<Link>, phase: Seq<StreamView>) -> Seq<StreamView>
    decreases links.len(),
{
    if links.len() == 0 {
        seq![]
    } else {
        with_frames(
            kept(links.drop_last(), phase),
            links.last().conn,
            links.last().att,
            frames_or_none(phase, links.last().conn, links.last().att),
        )
    }
}

/// Reports come back from their bytes.
proof fn frames_come_back(frames: Seq<Seq<u8>>, rest: Seq<u8>)
    requires
        forall|j: int| 0 <= j < frames.len() ==> (#[trigger] frames[j]).len() < 256,
    ensures
        frames_in(frames_bytes(frames) + rest, frames.len()) == Some((frames, rest)),
    decreases frames.len(),
{
    if frames.len() == 0 {
        assert(frames_bytes(frames) + rest =~= rest);
        assert(frames =~= seq![]);
    } else {
        let f = frames.last();
        let most = frames.drop_last();
        let tail = seq![bytes::low8(f.len())] + f + rest;
        assert(frames[frames.len() - 1] == f);
        assert forall|j: int| 0 <= j < most.len() implies (#[trigger] most[j]).len() < 256 by {
            assert(frames[j] == most[j]);
        }
        frames_come_back(most, tail);
        let a = frames_bytes(most);
        let b = seq![bytes::low8(f.len())];
        bytes::concat_associates(a + b, f, rest);
        bytes::concat_associates(a, b, f + rest);
        bytes::concat_associates(b, f, rest);
        assert(frames_bytes(frames) + rest == a + tail);
        assert(tail[0] == f.len());
        assert(tail.subrange(1, 1 + tail[0]) =~= f);
        assert(tail.skip(1 + tail[0]) =~= rest);
        assert(most.push(f) =~= frames);
    }
}

/// A stream comes back from its bytes.
#[verifier::spinoff_prover]
proof fn a_stream_comes_back(l: Link, frames: Seq<Seq<u8>>, rest: Seq<u8>, place: u8)
    requires
        fits_stream(frames),
    ensures
        stream_in(stream_bytes(l, frames) + rest, true, place) == Some((l, frames, rest)),
{
    let n = frames.len() as u32;
    let a = seq![side_byte(l.side)];
    let c = bytes::le16(l.conn);
    let t = bytes::le16(l.att);
    let k = bytes::le32(n);
    let head = a + c + t + k;
    let body = frames_bytes(frames);
    let buf = stream_bytes(l, frames) + rest;
    bytes::concat_associates(head, body, rest);
    assert(buf == head + (body + rest));
    assert(head.len() == 9);
    assert(buf.skip(9) =~= body + rest);
    bytes::le16_round_trips(l.conn);
    bytes::le16_round_trips(l.att);
    bytes::le32_round_trips(n);
    assert(head[0] == a[0]);
    assert(head[1] == c[0] && head[2] == c[1]);
    assert(head[3] == t[0] && head[4] == t[1]);
    assert(head[5] == k[0] && head[6] == k[1] && head[7] == k[2] && head[8] == k[3]);
    assert(forall|i: int| 0 <= i < 9 ==> buf[i] == head[i]);
    frames_come_back(frames, rest);
}

/// The streams of a phase come back from their bytes.
proof fn streams_come_back(links: Seq<Link>, phase: Seq<StreamView>, rest: Seq<u8>)
    requires
        links.len() < 256,
        forall|i: int|
            0 <= i < links.len() ==> fits_stream(
                #[trigger] frames_or_none(phase, links[i].conn, links[i].att),
            ),
    ensures
        streams_in(streams_bytes(links, phase) + rest, true, links.len()) == Some(
            (links, kept(links, phase), rest),
        ),
    decreases links.len(),
{
    if links.len() == 0 {
        assert(streams_bytes(links, phase) + rest =~= rest);
        assert(links =~= seq![]);
    } else {
        let l = links.last();
        let most = links.drop_last();
        let frames = frames_or_none(phase, l.conn, l.att);
        assert(links[links.len() - 1] == l);
        assert forall|i: int| 0 <= i < most.len() implies fits_stream(
            #[trigger] frames_or_none(phase, most[i].conn, most[i].att),
        ) by {
            assert(links[i] == most[i]);
        }
        let tail = stream_bytes(l, frames) + rest;
        streams_come_back(most, phase, tail);
        bytes::concat_associates(streams_bytes(most, phase), stream_bytes(l, frames), rest);
        a_stream_comes_back(l, frames, rest, (links.len() - 1) as u8);
        assert(most.push(l) =~= links);
    }
}

/// The phases come back from their bytes.
proof fn phases_come_back(links: Seq<Link>, rec: Seq<Seq<StreamView>>, rest: Seq<u8>)
    requires
        fits_capture(links, rec),
    ensures
        phases_in(phases_bytes(links, rec) + rest, true, rec.len()) == Some(
            (
                if rec.len() == 0 {
                    seq![]
                } else {
                    links
                },
                rec.map_values(|p: Seq<StreamView>| kept(links, p)),
                rest,
            ),
        ),
    decreases rec.len(),
{
    let f = |p: Seq<StreamView>| kept(links, p);
    if rec.len() == 0 {
        assert(phases_bytes(links, rec) + rest =~= rest);
        assert(rec.map_values(f) =~= seq![]);
    } else {
        let phase = rec.last();
        let most = rec.drop_last();
        assert(rec[rec.len() - 1] == phase);
        assert(fits_capture(links, most)) by {
            assert forall|p: int, i: int|
                0 <= p < most.len() && 0 <= i < links.len() implies fits_stream(
                #[trigger] frames_or_none(most[p], links[i].conn, links[i].att),
            ) by {
                assert(rec[p] == most[p]);
            }
        }
        let n = seq![bytes::low8(links.len())];
        let streams = streams_bytes(links, phase);
        let tail = n + (streams + rest);
        phases_come_back(links, most, tail);
        bytes::concat_associates(phases_bytes(links, most) + n, streams, rest);
        bytes::concat_associates(phases_bytes(links, most), n, streams + rest);
        assert(phases_bytes(links, rec) + rest == phases_bytes(links, most) + tail);
        assert(tail[0] == links.len());
        assert(tail.skip(1) =~= streams + rest);
        streams_come_back(links, phase, rest);
        assert(most.map_values(f).push(f(phase)) =~= rec.map_values(f));
    }
}

/// A capture survives its file: reading it back gives the same links and, phase by phase,
/// the reports of each of them.
pub proof fn a_capture_survives_its_file(links: Seq<Link>, rec: Seq<Seq<StreamView>>)
    requires
        fits_capture(links, rec),
        rec.len() > 0,
    ensures
        capture_of(capture_bytes(links, rec)) == Some(
            (links, rec.map_values(|p: Seq<StreamView>| kept(links, p))),
        ),
        forall|p: int, i: int|
            0 <= p < rec.len() && 0 <= i < links.len() ==> frames_of(
                #[trigger] kept(links, rec[p]),
                links[i].conn,
                links[i].att,
            ) == Some(#[trigger] frames_or_none(rec[p], links[i].conn, links[i].att)),
{
    let buf = capture_bytes(links, rec);
    let empty: Seq<u8> = seq![];
    phases_come_back(links, rec, empty);
    assert(phases_bytes(links, rec) + empty =~= phases_bytes(links, rec));
    assert(buf.skip(3) =~= phases_bytes(links, rec));
    assert(buf[0] == CAPTURE_V2 && buf[2] == rec.len());
    assert forall|p: int, i: int| 0 <= p < rec.len() && 0 <= i < links.len() implies frames_of(
        #[trigger] kept(links, rec[p]),
        links[i].conn,
        links[i].att,
    ) == Some(#[trigger] frames_or_none(rec[p], links[i].conn, links[i].att)) by {
        kept_has(links, rec[p], i);
    }
}

/// A phase that was kept has the reports of every link.
proof fn kept_has(links: Seq<Link>, phase: Seq<StreamView>, i: int)
    requires
        0 <= i < links.len(),
    ensures
        frames_of(kept(links, phase), links[i].conn, links[i].att) == Some(
            frames_or_none(phase, links[i].conn, links[i].att),
        ),
    decreases links.len(),
{
    let l = links.last();
    let most = links.drop_last();
    let before = kept(most, phase);
    let frames = frames_or_none(phase, l.conn, l.att);
    let after = with_frames(before, l.conn, l.att, frames);
    let c = links[i].conn;
    let a = links[i].att;
    stream_place_is_first(before, l.conn, l.att);
    stream_place_is_first(before, c, a);
    let at = stream_place(before, l.conn, l.att) as int;
    if c == l.conn && a == l.att {
        assert forall|j: int| 0 <= j < at implies !((#[trigger] after[j]).conn == c && after[j].att
            == a) by {
            assert(before[j] == after[j]);
        }
        stream_place_unique(after, c, a, at);
    } else {
        assert(i < most.len());
        kept_has(most, phase, i);
        let q = stream_place(before, c, a) as int;
        assert(q != at);
        assert forall|j: int| 0 <= j < q implies !((#[trigger] after[j]).conn == c && after[j].att
            == a) by {
            if j == at {
                assert(after[j].conn == l.conn && after[j].att == l.att);
            } else {
                assert(before[j] == after[j]);
            }
        }
        assert(after[q] == before[q]);
        stream_place_unique(after, c, a, q);
    }
}

/// The furthest of three is one of them, and none is further.
pub proof fn the_furthest_is_the_greatest(r: Seq<i64>)
    requires
        r.len() == 3,
    ensures
        r.contains(furthest(r)),
        forall|i: int| 0 <= i < 3 ==> #[trigger] r[i] <= furthest(r),
{
    assert(r.contains(r[0]) && r.contains(r[1]) && r.contains(r[2]));
}

/// A field is a candidate exactly where some sweep, whichever of the three, takes it twenty
/// steps or further, and six times as far as it went at rest.
pub proof fn any_sweep_makes_a_candidate(r: Seq<i64>, rest: i64)
    requires
        r.len() == 3,
        rest >= 0,
    ensures
        is_candidate(r, rest) <==> exists|i: int|
            0 <= i < 3 && #[trigger] r[i] >= 20 && r[i] >= 6 * rest,
{
    the_furthest_is_the_greatest(r);
    if is_candidate(r, rest) {
        let i = choose|i: int| 0 <= i < r.len() && r[i] == furthest(r);
        assert(r[i] >= 20);
    }
}

/// In what order the sweeps were made does not matter.
pub proof fn the_order_of_sweeps_does_not_matter(a: i64, b: i64, c: i64, rest: i64, width: nat)
    ensures
        is_candidate(seq![a, b, c], rest) == is_candidate(seq![b, a, c], rest),
        is_candidate(seq![a, b, c], rest) == is_candidate(seq![a, c, b], rest),
        is_packed_candidate(seq![a, b, c], rest, width) == is_packed_candidate(
            seq![b, a, c],
            rest,
            width,
        ),
        is_packed_candidate(seq![a, b, c], rest, width) == is_packed_candidate(
            seq![a, c, b],
            rest,
            width,
        ),
{
}

/// A packed field is a candidate exactly where its furthest sweep covers an eighth of what
/// the field can hold, and not more than nine tenths of it, and four times what it covered
/// at rest: some sweep goes that far, and none goes too far.
pub proof fn a_packed_candidate_moves_but_not_everywhere(r: Seq<i64>, rest: i64, width: nat)
    requires
        r.len() == 3,
        width >= 3,
        rest >= 0,
    ensures
        is_packed_candidate(r, rest, width) <==> {
            &&& exists|i: int|
                0 <= i < 3 && 8 * #[trigger] r[i] >= power2::pow2(width) && r[i] >= 4 * rest
            &&& forall|i: int| 0 <= i < 3 ==> 10 * #[trigger] r[i] <= 9 * power2::pow2(width)
        },
{
    the_furthest_is_the_greatest(r);
    let full = power2::pow2(width) as int;
    power2::lemma_pow2_adds((width - 3) as nat, 3);
    power2::lemma2_to64();
    assert(full == 8 * (full / 8)) by {
        assert(full == power2::pow2((width - 3) as nat) * 8);
    }
    let f = furthest(r);
    assert(f <= full * 9 / 10 <==> 10 * f <= 9 * full);
    if is_packed_candidate(r, rest, width) {
        let i = choose|i: int| 0 <= i < r.len() && r[i] == f;
        assert(8 * r[i] >= full);
    }
    let i = choose|i: int| 0 <= i < r.len() && r[i] == f;
    assert(0 <= i < 3);
}

/// Two fields overlap exactly where they have a byte in common.
pub proof fn overlapping_is_sharing_a_byte(off: int, width: int, base: int, stride: int)
    requires
        width > 0,
    ensures
        overlaps(off, width, base, stride) <==> exists|b: int, k: int|
            off <= b < off + width && 0 <= k < 3 && #[trigger] held_by(b, base, stride, k),
{
    if overlaps(off, width, base, stride) {
        let k: int = if off + width > base && base + 2 > off {
            0
        } else if off + width > base + stride && base + stride + 2 > off {
            1
        } else {
            2
        };
        let start = if k == 0 {
            base
        } else if k == 1 {
            base + stride
        } else {
            base + 2 * stride
        };
        assert(start == base + k * stride);
        let b = if off > start {
            off
        } else {
            start
        };
        assert(held_by(b, base, stride, k));
    }
    if exists|b: int, k: int|
        off <= b < off + width && 0 <= k < 3 && #[trigger] held_by(b, base, stride, k) {
        let (b, k) = choose|b: int, k: int|
            off <= b < off + width && 0 <= k < 3 && #[trigger] held_by(b, base, stride, k);
        assert(k == 0 || k == 1 || k == 2);
    }
}

/// Whether byte `b` belongs to field `k` of those that begin at `base` and lie `stride`
/// apart.
pub open spec fn held_by(b: int, base: int, stride: int, k: int) -> bool {
    base + k * stride <= b < base + k * stride + 2
}

/// What was put into a stream is what it holds, and nothing else changes.
pub proof fn a_stream_holds_what_was_put(
    all: Seq<StreamView>,
    conn: u16,
    att: u16,
    frames: Seq<Seq<u8>>,
    other_conn: u16,
    other_att: u16,
)
    ensures
        frames_of(with_frames(all, conn, att, frames), conn, att) == Some(frames),
        (other_conn, other_att) != (conn, att) ==> frames_of(
            with_frames(all, conn, att, frames),
            other_conn,
            other_att,
        ) == frames_of(all, other_conn, other_att),
{
    let at = stream_place(all, conn, att) as int;
    let o = stream_place(all, other_conn, other_att) as int;
    let now = with_frames(all, conn, att, frames);
    stream_place_is_first(all, conn, att);
    stream_place_is_first(all, other_conn, other_att);
    stream_place_unique(now, conn, att, at);
    if (other_conn, other_att) != (conn, att) {
        assert forall|j: int| 0 <= j < o implies !((#[trigger] now[j]).conn == other_conn
            && now[j].att == other_att) by {
            if j != at {
                assert(now[j] == all[j]);
            }
        }
        if o < all.len() {
            stream_place_unique(now, other_conn, other_att, o);
        } else {
            stream_place_unique(now, other_conn, other_att, now.len() as int);
        }
    }
}

/// A stream is known exactly where one has both its handles.
pub proof fn a_stream_is_known_by_both_handles(all: Seq<StreamView>, conn: u16, att: u16)
    ensures
        frames_of(all, conn, att) is Some <==> exists|i: int|
            0 <= i < all.len() && (#[trigger] all[i]).conn == conn && all[i].att == att,
{
    stream_place_is_first(all, conn, att);
}

/// A notification on a stream that is recorded is kept behind what came before, whole, and
/// no other stream changes; anything else changes nothing.
pub proof fn a_notification_is_kept(
    all: Seq<StreamView>,
    conn: u16,
    handle: u16,
    value: Seq<u8>,
    other_conn: u16,
    other_att: u16,
)
    ensures
        ({
            let p = acl::AclPacketView {
                conn_handle: conn,
                cid: 4,
                payload: seq![0x1Bu8] + bytes::le16(handle) + value,
            };
            let now = with_packet(all, p);
            &&& frames_of(all, conn, handle) matches Some(before) ==> frames_of(now, conn, handle)
                == Some(before.push(value))
            &&& frames_of(all, conn, handle) is None ==> now == all
            &&& (other_conn, other_att) != (conn, handle) ==> frames_of(now, other_conn, other_att)
                == frames_of(all, other_conn, other_att)
        }),
{
    let payload = seq![0x1Bu8] + bytes::le16(handle) + value;
    bytes::le16_round_trips(handle);
    assert(payload[0] == 0x1B);
    assert(payload[1] == bytes::le16(handle)[0]);
    assert(payload[2] == bytes::le16(handle)[1]);
    assert(payload.skip(3) =~= value);
    if frames_of(all, conn, handle) is Some {
        let before = frames_of(all, conn, handle)->0;
        a_stream_holds_what_was_put(
            all,
            conn,
            handle,
            before.push(value),
            other_conn,
            other_att,
        );
    }
}

/// What is not of the attribute protocol, or not a notification, is not recorded.
pub proof fn other_packets_are_not_recorded(all: Seq<StreamView>, p: acl::AclPacketView)
    requires
        p.cid != 4 || p.payload.len() < 3 || p.payload[0] != 0x1B,
    ensures
        with_packet(all, p) == all,
{
}

/// A recording of some links has a stream for each of them, empty, and no other.
pub proof fn a_recording_begins_empty(links: Seq<Link>, conn: u16, att: u16)
    ensures
        frames_of(empty_streams(links), conn, att) == if exists|i: int|
            0 <= i < links.len() && (#[trigger] links[i]).conn == conn && links[i].att == att {
            Some(Seq::<Seq<u8>>::empty())
        } else {
            None
        },
    decreases links.len(),
{
    if links.len() > 0 {
        let most = links.drop_last();
        let l = links.last();
        a_recording_begins_empty(most, conn, att);
        a_stream_holds_what_was_put(empty_streams(most), l.conn, l.att, seq![], conn, att);
        assert(forall|i: int| 0 <= i < most.len() ==> most[i] == #[trigger] links[i]);
        assert(links[links.len() - 1] == l);
        if exists|i: int| 0 <= i < most.len() && (#[trigger] most[i]).conn == conn && most[i].att
            == att {
            let i = choose|i: int|
                0 <= i < most.len() && (#[trigger] most[i]).conn == conn && most[i].att == att;
            assert(links[i].conn == conn);
        }
    } else {
        assert(empty_streams(links) =~= seq![]);
    }
}

/// Whether a half is among some.
pub open spec fn has_half(halves: Seq<(u16, Side)>, conn: u16) -> bool {
    exists|h: int| 0 <= h < halves.len() && (#[trigger] halves[h]).0 == conn
}

/// Whether the stream at `i` is the first of its half, and names its side.
pub open spec fn first_of_half(links: Seq<Link>, i: int, half: (u16, Side)) -> bool {
    &&& 0 <= i < links.len()
    &&& links[i].conn == half.0
    &&& links[i].side == half.1
    &&& forall|j: int| 0 <= j < i ==> (#[trigger] links[j]).conn != half.0
}

/// Whether a half is named by the first of its streams.
pub open spec fn named_first(links: Seq<Link>, half: (u16, Side)) -> bool {
    exists|i: int| #[trigger] first_of_half(links, i, half)
}

/// Every half with a stream is told once, under the side that its first stream names, and
/// no other is.
pub proof fn every_half_is_told_once(links: Seq<Link>)
    ensures
        forall|i: int| 0 <= i < links.len() ==> has_half(halves_of(links), (#[trigger] links[i]).conn),
        forall|h: int|
            0 <= h < halves_of(links).len() ==> named_first(links, #[trigger] halves_of(links)[h]),
        forall|g: int, h: int|
            0 <= g < h < halves_of(links).len() ==> (#[trigger] halves_of(links)[g]).0 != (
            #[trigger] halves_of(links)[h]).0,
    decreases links.len(),
{
    if links.len() > 0 {
        let most = links.drop_last();
        let l = links.last();
        let n = links.len() - 1;
        every_half_is_told_once(most);
        let before = halves_of(most);
        let now = halves_of(links);
        assert(has_half(before, l.conn) == (exists|i: int|
            0 <= i < before.len() && (#[trigger] before[i]).0 == l.conn));
        assert(now == if has_half(before, l.conn) {
            before
        } else {
            before.push((l.conn, l.side))
        });
        one_more_half(links, before, now);
    }
}

/// One more stream adds its half where it is new.
proof fn one_more_half(links: Seq<Link>, before: Seq<(u16, Side)>, now: Seq<(u16, Side)>)
    requires
        links.len() > 0,
        forall|i: int|
            0 <= i < links.len() - 1 ==> has_half(before, (#[trigger] links.drop_last()[i]).conn),
        forall|h: int|
            0 <= h < before.len() ==> named_first(links.drop_last(), #[trigger] before[h]),
        forall|g: int, h: int|
            0 <= g < h < before.len() ==> (#[trigger] before[g]).0 != (#[trigger] before[h]).0,
        now == if has_half(before, links.last().conn) {
            before
        } else {
            before.push((links.last().conn, links.last().side))
        },
    ensures
        forall|i: int| 0 <= i < links.len() ==> has_half(now, (#[trigger] links[i]).conn),
        forall|h: int|
            0 <= h < now.len() ==> named_first(links, #[trigger] now[h]),
        forall|g: int, h: int|
            0 <= g < h < now.len() ==> (#[trigger] now[g]).0 != (#[trigger] now[h]).0,
{
    let most = links.drop_last();
    let l = links.last();
    let n = links.len() - 1;
    assert forall|i: int| 0 <= i < links.len() implies has_half(now, (#[trigger] links[i]).conn) by {
        if i < n {
            assert(has_half(before, most[i].conn));
            let h = choose|h: int| 0 <= h < before.len() && (#[trigger] before[h]).0
                == most[i].conn;
            assert(now[h].0 == links[i].conn);
        } else if !has_half(before, l.conn) {
            assert(now[before.len() as int].0 == l.conn);
        }
    }
    assert forall|h: int| 0 <= h < now.len() implies named_first(links, #[trigger] now[h]) by {
        if h < before.len() {
            assert(named_first(most, before[h]));
            let i = choose|i: int| #[trigger] first_of_half(most, i, before[h]);
            assert forall|j: int| 0 <= j < i implies (#[trigger] links[j]).conn != now[h].0 by {
                assert(most[j] == links[j]);
            }
            assert(first_of_half(links, i, now[h]));
        } else {
            assert forall|j: int| 0 <= j < n implies (#[trigger] links[j]).conn != now[h].0 by {
                assert(most[j] == links[j]);
                assert(has_half(before, most[j].conn));
            }
            assert(first_of_half(links, n, now[h]));
        }
    }
    assert forall|g: int, h: int| 0 <= g < h < now.len() implies (#[trigger] now[g]).0 != (
    #[trigger] now[h]).0 by {
        if h == before.len() {
            assert(now[g] == before[g]);
        }
    }
}

/// How many bytes vary is how many there are that do.
pub proof fn live_bytes_are_counted(frames: Seq<Seq<u8>>, from: int, mid: int, to: int)
    requires
        from <= mid <= to,
    ensures
        live_bytes(frames, from, to) == live_bytes(frames, from, mid) + live_bytes(frames, mid, to),
        live_bytes(frames, from, to) <= to - from,
        live_bytes(frames, mid, mid) == 0,
        live_bytes(frames, mid, mid + 1) == if varies(frames, mid) {
            1nat
        } else {
            0
        },
        live_bytes(frames, from, to) == 0 <==> forall|i: int| from <= i < to ==> !varies(frames, i),
    decreases to - mid,
{
    reveal_with_fuel(live_bytes, 3);
    live_bytes_none(frames, from, to);
    if mid < to {
        live_bytes_are_counted(frames, from, mid, to - 1);
    }
}

/// No byte varies exactly where none is counted.
proof fn live_bytes_none(frames: Seq<Seq<u8>>, from: int, to: int)
    requires
        from <= to,
    ensures
        live_bytes(frames, from, to) <= to - from,
        live_bytes(frames, from, to) == 0 <==> forall|i: int| from <= i < to ==> !varies(frames, i),
    decreases to - from,
{
    if from < to {
        live_bytes_none(frames, from, to - 1);
        assert(live_bytes(frames, from, to) == 0 ==> !varies(frames, to - 1));
    }
}

/// Whether a field responds at `off`: it moves, and far more than at rest.
pub open spec fn responds(moving: Seq<Seq<u8>>, rest: Seq<Seq<u8>>, off: int) -> bool {
    let reach = fields::spread(fields::field_series(moving, off));
    reach > 400 && reach > 4 * fields::spread(fields::field_series(rest, off))
}

/// The field that responded most strongly responds, and none that responds reaches further;
/// there is one wherever any responds.
pub proof fn the_strongest_reaches_furthest(
    moving: Seq<Seq<u8>>,
    rest: Seq<Seq<u8>>,
    from: int,
    to: int,
)
    ensures
        strongest(moving, rest, from, to) is None <==> forall|off: int|
            from <= off < to ==> !#[trigger] responds(moving, rest, off),
        strongest(moving, rest, from, to) matches Some((at, reach)) ==> {
            &&& from <= at < to
            &&& responds(moving, rest, at)
            &&& reach == fields::spread(fields::field_series(moving, at))
            &&& forall|off: int|
                from <= off < to && #[trigger] responds(moving, rest, off) ==> fields::spread(
                    fields::field_series(moving, off),
                ) <= reach
            &&& forall|off: int|
                at < off < to && #[trigger] responds(moving, rest, off) ==> fields::spread(
                    fields::field_series(moving, off),
                ) < reach
        },
    decreases to - from,
{
    if from < to {
        let off = to - 1;
        the_strongest_reaches_furthest(moving, rest, from, off);
        let best = strongest(moving, rest, from, off);
        if responds(moving, rest, off) {
            assert(strongest(moving, rest, from, to) is Some);
        } else {
            assert(strongest(moving, rest, from, to) == best);
            if best is Some {
                assert(responds(moving, rest, (best->0).0));
            }
        }
    }
}

/// A report of the left half is shifted by one byte: what one says of its motion stands one
/// byte before where the other says it.
pub proof fn the_left_half_is_shifted_by_one(left: Seq<Seq<u8>>, right: Seq<Seq<u8>>)
    requires
        left.len() > 0,
        right.len() > 0,
        left[0].len() > 14,
        right[0].len() > 15,
    ensures
        shape_of_frames(Side::Left, left)->0.motion_len == left[0][14],
        shape_of_frames(Side::Right, right)->0.motion_len == right[0][15],
{
}

/// A stream of an older capture, which says no handles, comes back as the stream of its
/// place.
pub proof fn an_older_stream_comes_back(
    side: Side,
    frames: Seq<Seq<u8>>,
    rest: Seq<u8>,
    place: u8,
)
    requires
        fits_stream(frames),
    ensures
        stream_in(
            seq![
                if side == Side::Right {
                    1u8
                } else {
                    0u8
                },
            ] + bytes::le32(frames.len() as u32) + frames_bytes(frames) + rest,
            false,
            place,
        ) == Some((Link { conn: place as u16, side, att: 0x000E }, frames, rest)),
{
    let b = if side == Side::Right {
        1u8
    } else {
        0u8
    };
    let count = bytes::le32(frames.len() as u32);
    let buf = seq![b] + count + frames_bytes(frames) + rest;
    bytes::le32_round_trips(frames.len() as u32);
    frames_come_back(frames, rest);
    assert(buf[0] == b);
    assert(forall|i: int| 0 <= i < 4 ==> buf[1 + i] == #[trigger] count[i]);
    assert(bytes::u32_at(buf, 1) == bytes::u32_at(count, 0)) by {
        assert(buf[1] == count[0] && buf[2] == count[1] && buf[3] == count[2] && buf[4]
            == count[3]);
    }
    assert(buf.skip(5) =~= frames_bytes(frames) + rest);
}

/// How a stream stands in a capture: a byte for its half, both handles, how many reports
/// follow, and each of them behind its length.
pub proof fn a_stream_says_its_handles(l: Link, frame: Seq<u8>)
    requires
        frame.len() < 256,
    ensures
        stream_bytes(l, seq![frame]) == seq![
            if l.side == Side::Right {
                1u8
            } else {
                0u8
            },
        ] + bytes::le16(l.conn) + bytes::le16(l.att) + seq![1u8, 0, 0, 0] + seq![
            frame.len() as u8,
        ] + frame,
{
    let one = seq![frame];
    assert(one.drop_last() =~= seq![]);
    assert(one.last() == frame);
    assert(frames_bytes(one.drop_last()) =~= seq![]);
    assert(frames_bytes(one) =~= seq![frame.len() as u8] + frame);
    assert(bytes::le32(1) =~= seq![1u8, 0, 0, 0]);
    assert(stream_bytes(l, one) =~= seq![
        if l.side == Side::Right {
            1u8
        } else {
            0u8
        },
    ] + bytes::le16(l.conn) + bytes::le16(l.att) + seq![1u8, 0, 0, 0] + seq![
        frame.len() as u8,
    ] + frame);
}

/// A field is a candidate exactly where it shares no byte with the accelerometer and in one of
/// the three sweeps reached at least twenty, and six times as far as at rest.
pub proof fn a_candidate_moves_in_a_sweep(
    codec: Codec,
    phases: Seq<Seq<Seq<u8>>>,
    off: int,
    accel: Option<(usize, usize)>,
)
    ensures
        ({
            let found = gyro_of(codec, phases, off, accel);
            let far = |k: int| fields::spread(fields::series(codec, phases[k], off));
            &&& found is Some <==> {
                &&& (accel matches Some((b, st)) ==> !overlaps(
                    off,
                    codec.size() as int,
                    b as int,
                    st as int,
                ))
                &&& exists|k: int| 1 <= k <= 3 && #[trigger] far(k) >= 20 && far(k) >= 6 * far(0)
            }
            &&& found matches Some((rest, reach)) ==> rest == far(0) && reach.len() == 3 && forall|
                k: int,
            |
                0 <= k < 3 ==> #[trigger] reach[k] == far(k + 1)
        }),
{
    let far = |k: int| fields::spread(fields::series(codec, phases[k], off));
    let found = gyro_of(codec, phases, off, accel);
    a_spread_is_small(codec, phases[0], off);
    a_spread_is_small(codec, phases[1], off);
    a_spread_is_small(codec, phases[2], off);
    a_spread_is_small(codec, phases[3], off);
    let reach = seq![far(1), far(2), far(3)];
    let r = narrow(reach);
    assert(r[0] == far(1) && r[1] == far(2) && r[2] == far(3));
    if is_candidate(r, far(0) as i64) {
        let k = if furthest(r) == r[0] {
            1
        } else if furthest(r) == r[1] {
            2
        } else {
            3int
        };
        assert(far(k) >= 20 && far(k) >= 6 * far(0));
    }
}

/// No field reaches further than three bytes can hold.
proof fn a_spread_is_small(codec: Codec, frames: Seq<Seq<u8>>, off: int)
    ensures
        0 <= fields::spread(fields::series(codec, frames, off)) <= 0xFF_FFFF,
{
    let values = fields::series(codec, frames, off);
    fields::the_spread_is_the_greatest_difference(values);
    if fields::present(values) > 0 {
        let (i, j) = choose|i: int, j: int|
            0 <= i < values.len() && 0 <= j < values.len() && (#[trigger] values[i]) is Some && (
            #[trigger] values[j]) is Some && values[i]->0 - values[j]->0 == fields::spread(values);
        assert(values[i] == codec.value(frames[i], off));
        assert(values[j] == codec.value(frames[j], off));
    }
}

/// A packed field is measured at rest in the first phase and in the three sweeps that follow,
/// each by itself.
pub proof fn a_packed_field_is_measured_by_phase(
    phases: Seq<Seq<Seq<u8>>>,
    from: int,
    off: int,
    width: nat,
)
    ensures
        ({
            let (rest, reach, _) = packed_of(phases, from, off, width);
            let values = |k: int|
                phases[k].map_values(|f: Seq<u8>| fields::packed_value(f.skip(from), off, width));
            &&& rest == fields::spread(values(0))
            &&& reach.len() == 3
            &&& forall|k: int| 0 <= k < 3 ==> #[trigger] reach[k] == fields::spread(values(k + 1))
        }),
{
}

/// The map of a recording has a mark for every byte, and it is that of a live one exactly
/// where two reports differ in it.
pub proof fn live_bytes_are_marked(frames: Seq<Seq<u8>>, width: nat, i: int)
    requires
        0 <= i < width,
        forall|j: int| 0 <= j < frames.len() ==> i < (#[trigger] frames[j]).len(),
    ensures
        liveness(frames, width).len() == width,
        liveness(frames, width)[i] == '#' <==> exists|j: int, k: int|
            0 <= j < frames.len() && 0 <= k < frames.len() && #[trigger] frames[j][i]
                != #[trigger] frames[k][i],
        liveness(frames, width)[i] == '#' || liveness(frames, width)[i] == '.',
{
    if liveness(frames, width)[i] == '#' {
        let j = choose|j: int|
            0 <= j < frames.len() && byte_of(#[trigger] frames[j], i) != byte_of(frames[0], i);
        assert(frames[j][i] != frames[0][i]);
    }
    if exists|j: int, k: int|
        0 <= j < frames.len() && 0 <= k < frames.len() && #[trigger] frames[j][i]
            != #[trigger] frames[k][i] {
        let (j, k) = choose|j: int, k: int|
            0 <= j < frames.len() && 0 <= k < frames.len() && #[trigger] frames[j][i]
                != #[trigger] frames[k][i];
        if byte_of(frames[j], i) == byte_of(frames[0], i) {
            assert(byte_of(frames[k], i) != byte_of(frames[0], i));
        }
        assert(varies(frames, i));
    }
}

/// A tail speaks by any byte from the forty-fifth on that is not zero, in any report, and by
/// nothing before that.
pub proof fn a_tail_speaks_by_any_byte(frames: Seq<Seq<u8>>, j: int, i: int)
    requires
        0 <= j < frames.len(),
        0 <= i < frames[j].len(),
    ensures
        i >= 45 && frames[j][i] != 0 ==> tail_speaks(frames),
        (forall|k: int, l: int|
            0 <= k < frames.len() && 45 <= l < frames[k].len() ==> #[trigger] frames[k][l] == 0)
            ==> !tail_speaks(frames),
{
}

} // verus!
