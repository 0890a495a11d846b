//! What has been read from the dongle and not been asked for yet.
use std::collections::VecDeque;
use vstd::prelude::*;
use crate::acl;
use crate::acl::{split_acl, AclPacket};
use crate::bytes;
use crate::hci;
use crate::hci::{parse_event, Event};

verus! {

/// The size of the event that `buf` starts with, header included.
pub open spec fn event_size(buf: Seq<u8>) -> int {
    2 + buf[1]
}

/// The events of one transfer, in order. A truncated tail is dropped rather than kept
/// for the next transfer: a tail that never completes would hold up everything behind
/// it.
pub open spec fn transfer_events(buf: Seq<u8>) -> Seq<hci::EventView>
    decreases buf.len(),
{
    if buf.len() < 2 || event_size(buf) > buf.len() {
        seq![]
    } else {
        (match hci::event_of(buf.take(event_size(buf))) {
            Ok(e) => seq![e],
            Err(_) => seq![],
        }) + transfer_events(buf.skip(event_size(buf)))
    }
}

/// The events of `all`, each by its view.
pub open spec fn event_views(all: Seq<Event>) -> Seq<hci::EventView> {
    all.map_values(|e: Event| e@)
}

/// Split one USB transfer into every complete event it holds.
///
/// One transfer is usually one event, but not always: an event whose length is an exact
/// multiple of the endpoint's packet size has no short packet to end it, so the next
/// one is appended to the same transfer.
pub fn split_events(buf: &[u8]) -> (out: Vec<Event>)
    ensures
        event_views(out@) == transfer_events(buf@),
{
    let mut out: Vec<Event> = Vec::new();
    let mut i: usize = 0;
    proof {
        assert(buf@.skip(0) =~= buf@);
        assert(event_views(out@) + transfer_events(buf@) =~= transfer_events(buf@));
    }
    while buf.len() - i >= 2
        invariant
            i <= buf@.len(),
            event_views(out@) + transfer_events(buf@.skip(i as int)) == transfer_events(buf@),
        ensures
            event_views(out@) == transfer_events(buf@),
        decreases buf@.len() - i,
    {
        let ghost rest = buf@.skip(i as int);
        let want: usize = 2 + buf[i + 1] as usize;
        assert(want == event_size(rest));
        if want > buf.len() - i {
            assert(transfer_events(rest) =~= seq![]);
            assert(event_views(out@) =~= event_views(out@) + transfer_events(rest));
            break;
        }
        let frame = vstd::slice::slice_subrange(buf, i, i + want);
        assert(frame@ =~= rest.take(want as int));
        assert(rest.skip(want as int) =~= buf@.skip(i + want));
        let ghost before = event_views(out@);
        if let Ok(e) = parse_event(frame) {
            let ghost v = e@;
            out.push(e);
            assert(event_views(out@) =~= before.push(v));
        }
        assert(event_views(out@) + transfer_events(buf@.skip(i + want)) =~= before
            + transfer_events(rest));
        i = i + want;
        if buf.len() - i < 2 {
            assert(transfer_events(buf@.skip(i as int)) =~= seq![]);
            assert(event_views(out@) =~= event_views(out@) + transfer_events(
                buf@.skip(i as int),
            ));
        }
    }
    out
}

/// A whole event at the start of a transfer is recovered, and what follows it is split
/// as if it stood alone.
pub proof fn a_whole_event_is_recovered(event: Seq<u8>, rest: Seq<u8>)
    requires
        event.len() >= 2,
        event.len() == event_size(event),
    ensures
        transfer_events(event + rest) == seq![
            hci::decode_params(event[0], event.skip(2)),
        ] + transfer_events(rest),
{
    let buf = event + rest;
    assert(buf[1] == event[1]);
    assert(buf.take(event_size(buf)) =~= event);
    assert(buf.skip(event_size(buf)) =~= rest);
    assert(event.subrange(2, 2 + event[1]) =~= event.skip(2));
}

/// A truncated tail costs only itself.
pub proof fn a_truncated_tail_is_dropped(event: Seq<u8>, tail: Seq<u8>)
    requires
        event.len() >= 2,
        event.len() == event_size(event),
        tail.len() < 2 || tail.len() < event_size(tail),
    ensures
        transfer_events(event + tail) == seq![hci::decode_params(event[0], event.skip(2))],
{
    a_whole_event_is_recovered(event, tail);
    assert(transfer_events(tail) =~= seq![]);
    assert(seq![hci::decode_params(event[0], event.skip(2))] + transfer_events(tail) =~= seq![
        hci::decode_params(event[0], event.skip(2)),
    ]);
}

/// Events encoded one after the other.
pub open spec fn transfer_bytes(events: Seq<(u8, Seq<u8>)>) -> Seq<u8>
    decreases events.len(),
{
    if events.len() == 0 {
        seq![]
    } else {
        seq![events[0].0, bytes::low8(events[0].1.len())] + events[0].1 + transfer_bytes(
            events.skip(1),
        )
    }
}

/// Every event of a transfer is recovered, however many it holds.
pub proof fn every_event_is_recovered(events: Seq<(u8, Seq<u8>)>)
    requires
        forall|i: int| 0 <= i < events.len() ==> #[trigger] events[i].1.len() < 256,
    ensures
        transfer_events(transfer_bytes(events)) == events.map_values(
            |e: (u8, Seq<u8>)| hci::decode_params(e.0, e.1),
        ),
    decreases events.len(),
{
    let f = |e: (u8, Seq<u8>)| hci::decode_params(e.0, e.1);
    if events.len() == 0 {
        assert(transfer_bytes(events) =~= seq![]);
        assert(transfer_events(transfer_bytes(events)) =~= events.map_values(f));
    } else {
        let first = seq![events[0].0, bytes::low8(events[0].1.len())] + events[0].1;
        every_event_is_recovered(events.skip(1));
        assert(first.len() == event_size(first));
        assert(first.skip(2) =~= events[0].1);
        a_whole_event_is_recovered(first, transfer_bytes(events.skip(1)));
        assert(seq![f(events[0])] + events.skip(1).map_values(f) =~= events.map_values(f));
    }
}

/// What has arrived and waits to be asked for.
#[derive(Debug)]
pub struct Inbox {
    pub events: VecDeque<Event>,
    pub packets: VecDeque<AclPacket>,
}

/// An [`Inbox`] with what it holds by the views.
#[verifier::ext_equal]
pub struct InboxView {
    pub events: Seq<hci::EventView>,
    pub packets: Seq<acl::AclPacketView>,
}

impl View for Inbox {
    type V = InboxView;

    open spec fn view(&self) -> InboxView {
        InboxView { events: event_views(self.events@), packets: acl::packet_views(self.packets@) }
    }
}

/// The next of what waits, where anything does, and what waits then.
pub open spec fn next_of<T>(waiting: Seq<T>) -> (Option<T>, Seq<T>) {
    if waiting.len() == 0 {
        (None, waiting)
    } else {
        (Some(waiting[0]), waiting.skip(1))
    }
}

/// A packet that may have been read.
pub open spec fn maybe_packet(p: Option<AclPacket>) -> Option<acl::AclPacketView> {
    match p {
        Some(p) => Some(p@),
        None => None,
    }
}

impl Inbox {
    /// An inbox that holds nothing.
    pub fn new() -> (i: Inbox)
        ensures
            i@ == (InboxView { events: seq![], packets: seq![] }),
    {
        let i = Inbox { events: VecDeque::new(), packets: VecDeque::new() };
        assert(event_views(i.events@) =~= seq![]);
        assert(acl::packet_views(i.packets@) =~= seq![]);
        i
    }

    /// The next event that waits. Nothing is read for it.
    pub fn next_event(&mut self) -> (e: Option<Event>)
        ensures
            (hci::maybe_event(e), final(self)@.events) == next_of(old(self)@.events),
            final(self)@.packets == old(self)@.packets,
    {
        let e = self.events.pop_front();
        assert(event_views(self.events@) =~= next_of(old(self)@.events).1);
        e
    }

    /// The next packet that waits. Nothing is read for it.
    pub fn next_packet(&mut self) -> (p: Option<AclPacket>)
        ensures
            (maybe_packet(p), final(self)@.packets) == next_of(old(self)@.packets),
            final(self)@.events == old(self)@.events,
    {
        let p = self.packets.pop_front();
        assert(acl::packet_views(self.packets@) =~= next_of(old(self)@.packets).1);
        p
    }

    /// Put every event of a transfer behind those that wait, and hand out the first.
    pub fn events_in(&mut self, transfer: &[u8]) -> (e: Option<Event>)
        ensures
            (hci::maybe_event(e), final(self)@.events) == next_of(
                old(self)@.events + transfer_events(transfer@),
            ),
            final(self)@.packets == old(self)@.packets,
    {
        let ghost before = self.events@;
        let found = split_events(transfer);
        let ghost all = found@;
        let mut found = to_queue(found);
        self.events.append(&mut found);
        assert(event_views(before + all) =~= event_views(before) + event_views(all));
        self.next_event()
    }

    /// Put every packet of a transfer behind those that wait, and hand out the first.
    pub fn packets_in(&mut self, transfer: &[u8]) -> (p: Option<AclPacket>)
        ensures
            (maybe_packet(p), final(self)@.packets) == next_of(
                old(self)@.packets + acl::acl_packets(transfer@),
            ),
            final(self)@.events == old(self)@.events,
    {
        let ghost before = self.packets@;
        let found = split_acl(transfer);
        let ghost all = found@;
        let mut found = to_queue(found);
        self.packets.append(&mut found);
        assert(acl::packet_views(before + all) =~= acl::packet_views(before)
            + acl::packet_views(all));
        self.next_packet()
    }

    /// Put events back at the front, in their order: they were read before anything
    /// that waits here.
    pub fn push_events_front(&mut self, events: Vec<Event>)
        ensures
            final(self)@.events == event_views(events@) + old(self)@.events,
            final(self)@.packets == old(self)@.packets,
    {
        let ghost all = events@;
        let ghost before = self.events@;
        let mut front = to_queue(events);
        std::mem::swap(&mut self.events, &mut front);
        self.events.append(&mut front);
        assert(event_views(all + before) =~= event_views(all) + event_views(before));
    }

    /// The same, for packets.
    pub fn push_acl_front(&mut self, packets: Vec<AclPacket>)
        ensures
            final(self)@.packets == acl::packet_views(packets@) + old(self)@.packets,
            final(self)@.events == old(self)@.events,
    {
        let ghost all = packets@;
        let ghost before = self.packets@;
        let mut front = to_queue(packets);
        std::mem::swap(&mut self.packets, &mut front);
        self.packets.append(&mut front);
        assert(acl::packet_views(all + before) =~= acl::packet_views(all) + acl::packet_views(
            before,
        ));
    }

    /// Throw away everything that waits. The packets go too: connection handles are
    /// reused, so data of a link that no longer exists would be delivered to whichever
    /// link inherits its handle.
    pub fn clear(&mut self)
        ensures
            final(self)@ == (InboxView { events: seq![], packets: seq![] }),
    {
        self.events.clear();
        self.packets.clear();
        assert(event_views(self.events@) =~= seq![]);
        assert(acl::packet_views(self.packets@) =~= seq![]);
    }
}

/// A list as a queue, in the same order.
pub fn to_queue<T>(list: Vec<T>) -> (q: VecDeque<T>)
    ensures
        q@ == list@,
{
    let ghost all = list@;
    let mut list = list;
    let mut q: VecDeque<T> = VecDeque::new();
    assert(list@ + q@ =~= all);
    while list.len() > 0
        invariant
            list@ + q@ == all,
        decreases list@.len(),
    {
        let ghost before = list@;
        let ghost tail = q@;
        if let Some(x) = list.pop() {
            q.push_front(x);
            assert(list@ + q@ =~= before + tail);
        }
    }
    assert(q@ =~= all);
    q
}

/// What waits comes out in the order in which it came, one at a time, and the rest keeps
/// waiting.
pub proof fn what_waits_comes_out_in_order<T>(first: T, rest: Seq<T>)
    ensures
        next_of(seq![first] + rest) == (Some(first), rest),
        next_of(Seq::<T>::empty()) == (None::<T>, Seq::<T>::empty()),
        next_of(rest).0 is None <==> rest.len() == 0,
{
    assert((seq![first] + rest).skip(1) =~= rest);
}

} // verus!
