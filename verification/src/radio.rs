//! One dongle, shared by every transport that wants it.
//!
//! The dongle carries one stream of events and packets for every link at once, and
//! whoever reads it consumes it. So there is one reader, and it hands a copy of
//! everything to each subscriber.
use std::collections::VecDeque;
use vstd::prelude::*;
use crate::acl;
use crate::acl::AclPacket;
use crate::hci;
use crate::hci::Event;
use crate::transport;
use crate::transport::Inbox;

verus! {

/// One thing that arrived from the radio.
#[derive(Debug)]
pub enum Inbound {
    Event(Event),
    Acl(AclPacket),
}

/// An [`Inbound`] with what it holds by its view.
#[verifier::ext_equal]
pub enum InboundView {
    Event(hci::EventView),
    Acl(acl::AclPacketView),
}

impl View for Inbound {
    type V = InboundView;

    open spec fn view(&self) -> InboundView {
        match self {
            Inbound::Event(e) => InboundView::Event(e@),
            Inbound::Acl(p) => InboundView::Acl(p@),
        }
    }
}

impl Clone for Inbound {
    fn clone(&self) -> (i: Inbound)
        ensures
            i@ == self@,
    {
        match self {
            Inbound::Event(e) => Inbound::Event(e.clone()),
            Inbound::Acl(p) => Inbound::Acl(p.clone()),
        }
    }
}

/// The items of `all`, each by its view.
pub open spec fn inbound_views(all: Seq<Inbound>) -> Seq<InboundView> {
    all.map_values(|i: Inbound| i@)
}

/// How much a subscriber may fall behind before its oldest traffic is dropped.
///
/// Dropping is the right failure: a transport that stops draining must not make its
/// queue grow without bound, and must not stall the reader that feeds the others.
pub const QUEUE_LIMIT: usize = 512;

/// What one subscriber has not read yet, and how much it has missed.
#[derive(Debug)]
pub struct Sub {
    pub id: usize,
    pub queue: VecDeque<Inbound>,
    pub dropped: usize,
}

/// A [`Sub`] with its queue by the views.
#[verifier::ext_equal]
pub struct SubView {
    pub id: usize,
    pub queue: Seq<InboundView>,
    pub dropped: usize,
}

impl View for Sub {
    type V = SubView;

    open spec fn view(&self) -> SubView {
        SubView { id: self.id, queue: inbound_views(self.queue@), dropped: self.dropped }
    }
}

/// The number after `n`, starting over behind the last.
pub open spec fn following(n: usize) -> usize {
    if n == usize::MAX {
        0
    } else {
        (n + 1) as usize
    }
}

/// Count one further, starting over behind the last.
fn count_on(n: usize) -> (r: usize)
    ensures
        r == following(n),
{
    if n == usize::MAX {
        0
    } else {
        n + 1
    }
}

/// A subscriber once `item` was handed to it. Where its queue is full, the oldest item
/// makes room.
pub open spec fn handed(s: SubView, item: InboundView) -> SubView {
    if s.queue.len() >= QUEUE_LIMIT {
        SubView { id: s.id, queue: s.queue.skip(1).push(item), dropped: following(s.dropped) }
    } else {
        SubView { id: s.id, queue: s.queue.push(item), dropped: s.dropped }
    }
}

impl Sub {
    /// Hand an item to this subscriber.
    fn hand(&mut self, item: Inbound)
        ensures
            final(self)@ == handed(old(self)@, item@),
    {
        let ghost before = self.queue@;
        if self.queue.len() >= QUEUE_LIMIT {
            let _ = self.queue.pop_front();
            self.dropped = count_on(self.dropped);
            assert(inbound_views(self.queue@) =~= inbound_views(before).skip(1));
        }
        let ghost kept = inbound_views(self.queue@);
        self.queue.push_back(item);
        assert(inbound_views(self.queue@) =~= kept.push(item@));
    }
}

/// The fan-out: every subscriber, in the order they came.
#[derive(Debug)]
pub struct Bus {
    pub subs: Vec<Sub>,
    pub next_id: usize,
}

/// The subscribers of `all`, each by its view.
pub open spec fn sub_views(all: Seq<Sub>) -> Seq<SubView> {
    all.map_values(|s: Sub| s@)
}

/// A [`Bus`] with its subscribers by their views.
#[verifier::ext_equal]
pub struct BusView {
    pub subs: Seq<SubView>,
    pub next_id: usize,
}

impl View for Bus {
    type V = BusView;

    open spec fn view(&self) -> BusView {
        BusView { subs: sub_views(self.subs@), next_id: self.next_id }
    }
}

/// The place of the first subscriber called `id`, or how many there are.
pub open spec fn place(subs: Seq<SubView>, id: usize) -> nat
    decreases subs.len(),
{
    if subs.len() == 0 || subs[0].id == id {
        0
    } else {
        1 + place(subs.skip(1), id)
    }
}

/// The place of a subscriber is the first one with its name.
proof fn place_is_first(subs: Seq<SubView>, id: usize)
    ensures
        place(subs, id) <= subs.len(),
        place(subs, id) < subs.len() ==> subs[place(subs, id) as int].id == id,
        forall|j: int| 0 <= j < place(subs, id) ==> (#[trigger] subs[j]).id != id,
    decreases subs.len(),
{
    if subs.len() > 0 && subs[0].id != id {
        place_is_first(subs.skip(1), id);
        assert forall|j: int| 0 <= j < place(subs, id) implies (#[trigger] subs[j]).id != id by {
            if j > 0 {
                assert(subs.skip(1)[j - 1] == subs[j]);
            }
        }
        if place(subs, id) < subs.len() {
            assert(subs.skip(1)[place(subs, id) - 1] == subs[place(subs, id) as int]);
        }
    }
}

/// Only one place is the first.
proof fn place_unique(subs: Seq<SubView>, id: usize, k: int)
    requires
        0 <= k <= subs.len(),
        k < subs.len() ==> subs[k].id == id,
        forall|j: int| 0 <= j < k ==> (#[trigger] subs[j]).id != id,
    ensures
        place(subs, id) == k,
{
    place_is_first(subs, id);
    let p = place(subs, id) as int;
    if p < k {
        assert(subs[p].id != id);
    } else if k < p {
        assert(subs[k].id != id);
    }
}

/// The bus once everybody was handed `item`.
pub open spec fn broadcast_to(b: BusView, item: InboundView) -> BusView {
    BusView { subs: b.subs.map_values(|s: SubView| handed(s, item)), next_id: b.next_id }
}

/// The bus with one more subscriber, who has missed nothing and waits for everything.
pub open spec fn joined(b: BusView) -> BusView {
    BusView {
        subs: b.subs.push(SubView { id: b.next_id, queue: seq![], dropped: 0 }),
        next_id: following(b.next_id),
    }
}

/// How much the subscriber called `id` has missed, where there is one.
pub open spec fn missed(b: BusView, id: usize) -> Option<usize> {
    let at = place(b.subs, id) as int;
    if at < b.subs.len() {
        Some(b.subs[at].dropped)
    } else {
        None
    }
}

/// The bus without the subscriber called `id`.
pub open spec fn without(b: BusView, id: usize) -> BusView {
    let at = place(b.subs, id) as int;
    if at < b.subs.len() {
        BusView { subs: b.subs.remove(at), next_id: b.next_id }
    } else {
        b
    }
}

impl Bus {
    /// A bus that nobody listens to.
    pub fn new() -> (b: Bus)
        ensures
            b@ == (BusView { subs: seq![], next_id: 0 }),
    {
        let b = Bus { subs: Vec::new(), next_id: 0 };
        assert(sub_views(b.subs@) =~= seq![]);
        b
    }

    /// Hand a copy of `item` to every subscriber.
    pub fn broadcast(&mut self, item: Inbound)
        ensures
            final(self)@ == broadcast_to(old(self)@, item@),
            final(self)@.subs.len() == old(self)@.subs.len(),
            forall|i: int|
                #![trigger final(self)@.subs[i]]
                0 <= i < old(self)@.subs.len() ==> final(self)@.subs[i].id == old(self)@.subs[i].id
                    && final(self)@.subs[i].queue == (if old(self)@.subs[i].queue.len()
                    >= QUEUE_LIMIT {
                    old(self)@.subs[i].queue.skip(1).push(item@)
                } else {
                    old(self)@.subs[i].queue.push(item@)
                }),
    {
        let ghost before = sub_views(self.subs@);
        let ghost v = item@;
        let n: usize = self.subs.len();
        let mut i: usize = 0;
        while i < n
            invariant
                i <= n,
                n == before.len(),
                self.subs@.len() == n,
                v == item@,
                self.next_id == old(self).next_id,
                forall|j: int|
                    0 <= j < n ==> (#[trigger] self.subs@[j])@ == (if j < i {
                        handed(before[j], v)
                    } else {
                        before[j]
                    }),
            decreases n - i,
        {
            let copy = item.clone();
            self.subs[i].hand(copy);
            i += 1;
        }
        assert(sub_views(self.subs@) =~= broadcast_to(old(self)@, v).subs);
    }

    /// Let one more subscriber in, and say what it is called.
    pub fn add(&mut self) -> (id: usize)
        ensures
            final(self)@ == joined(old(self)@),
            id == old(self)@.next_id,
    {
        let id: usize = self.next_id;
        let s = Sub { id, queue: VecDeque::new(), dropped: 0 };
        let ghost v = s@;
        assert(inbound_views(s.queue@) =~= seq![]);
        self.next_id = count_on(id);
        self.subs.push(s);
        assert(sub_views(self.subs@) =~= old(self)@.subs.push(v));
        id
    }

    /// The place of a subscriber among the others.
    pub fn find(&self, id: usize) -> (i: usize)
        ensures
            i == place(self@.subs, id),
            i <= self.subs@.len(),
    {
        let mut i: usize = 0;
        while i < self.subs.len()
            invariant
                i <= self.subs@.len(),
                forall|j: int| 0 <= j < i ==> (#[trigger] self@.subs[j]).id != id,
            decreases self.subs@.len() - i,
        {
            assert(self@.subs[i as int].id == self.subs@[i as int].id);
            if self.subs[i].id == id {
                proof {
                    place_unique(self@.subs, id, i as int);
                }
                return i;
            }
            i += 1;
        }
        proof {
            place_unique(self@.subs, id, i as int);
        }
        i
    }

    /// Let a subscriber go. One that is not known is not an error.
    pub fn remove(&mut self, id: usize)
        ensures
            final(self)@ == without(old(self)@, id),
    {
        let i: usize = self.find(id);
        if i < self.subs.len() {
            let ghost before = self.subs@;
            let _ = self.subs.remove(i);
            assert(sub_views(self.subs@) =~= sub_views(before).remove(i as int));
        }
    }

    /// How much a subscriber has missed by falling behind.
    pub fn dropped(&self, id: usize) -> (n: Option<usize>)
        ensures
            n == missed(self@, id),
    {
        let i: usize = self.find(id);
        if i < self.subs.len() {
            assert(self@.subs[i as int].dropped == self.subs@[i as int].dropped);
            Some(self.subs[i].dropped)
        } else {
            None
        }
    }

    /// How many items wait for a subscriber.
    pub fn waiting(&self, id: usize) -> (n: usize)
        ensures
            n == queue_of(self@, id).len(),
    {
        let i: usize = self.find(id);
        if i < self.subs.len() {
            assert(self@.subs[i as int].queue.len() == self.subs@[i as int].queue@.len());
            self.subs[i].queue.len()
        } else {
            0
        }
    }

    /// The queue of a subscriber, left empty.
    fn take_queue(&mut self, id: usize) -> (q: VecDeque<Inbound>)
        ensures
            inbound_views(q@) == queue_of(old(self)@, id),
            final(self)@ == with_queue(old(self)@, id, seq![]),
    {
        let i: usize = self.find(id);
        let mut q: VecDeque<Inbound> = VecDeque::new();
        assert(inbound_views(q@) =~= seq![]);
        if i < self.subs.len() {
            let ghost before = self.subs@;
            assert(self@.subs[i as int].queue == inbound_views(self.subs@[i as int].queue@));
            std::mem::swap(&mut self.subs[i].queue, &mut q);
            assert(sub_views(self.subs@) =~= sub_views(before).update(
                i as int,
                SubView {
                    id: before[i as int].id,
                    queue: seq![],
                    dropped: before[i as int].dropped,
                },
            ));
        }
        q
    }

    /// Set the queue of a subscriber.
    fn put_queue(&mut self, id: usize, q: VecDeque<Inbound>)
        ensures
            final(self)@ == with_queue(old(self)@, id, inbound_views(q@)),
    {
        let i: usize = self.find(id);
        if i < self.subs.len() {
            let ghost before = self.subs@;
            let mut q = q;
            let ghost v = inbound_views(q@);
            std::mem::swap(&mut self.subs[i].queue, &mut q);
            assert(sub_views(self.subs@) =~= sub_views(before).update(
                i as int,
                SubView { id: before[i as int].id, queue: v, dropped: before[i as int].dropped },
            ));
        }
    }
}

/// What waits for the subscriber called `id`.
pub open spec fn queue_of(b: BusView, id: usize) -> Seq<InboundView> {
    let at = place(b.subs, id) as int;
    if at < b.subs.len() {
        b.subs[at].queue
    } else {
        seq![]
    }
}

/// The bus where `queue` waits for the subscriber called `id`.
pub open spec fn with_queue(b: BusView, id: usize, queue: Seq<InboundView>) -> BusView {
    let at = place(b.subs, id) as int;
    if at < b.subs.len() {
        BusView {
            subs: b.subs.update(
                at,
                SubView { id: b.subs[at].id, queue, dropped: b.subs[at].dropped },
            ),
            next_id: b.next_id,
        }
    } else {
        b
    }
}

/// Setting a queue moves nobody.
proof fn with_queue_keeps_places(b: BusView, id: usize, queue: Seq<InboundView>)
    ensures
        place(with_queue(b, id, queue).subs, id) == place(b.subs, id),
{
    place_is_first(b.subs, id);
    let c = with_queue(b, id, queue);
    let at = place(b.subs, id) as int;
    assert forall|j: int| 0 <= j < at implies (#[trigger] c.subs[j]).id != id by {
        assert(b.subs[j].id != id);
    }
    place_unique(c.subs, id, at);
}

/// Whether an item is of the kind that is looked for.
pub open spec fn is_kind(i: InboundView, want_event: bool) -> bool {
    (i is Event) == want_event
}

/// The place of the first item of a kind, or how many there are.
pub open spec fn kind_place(all: Seq<InboundView>, want_event: bool) -> nat
    decreases all.len(),
{
    if all.len() == 0 || is_kind(all[0], want_event) {
        0
    } else {
        1 + kind_place(all.skip(1), want_event)
    }
}

/// The place of a kind is the first of it.
proof fn kind_place_is_first(all: Seq<InboundView>, want_event: bool)
    ensures
        kind_place(all, want_event) <= all.len(),
        kind_place(all, want_event) < all.len() ==> is_kind(
            all[kind_place(all, want_event) as int],
            want_event,
        ),
        forall|j: int|
            0 <= j < kind_place(all, want_event) ==> !is_kind(#[trigger] all[j], want_event),
    decreases all.len(),
{
    if all.len() > 0 && !is_kind(all[0], want_event) {
        kind_place_is_first(all.skip(1), want_event);
        assert forall|j: int| 0 <= j < kind_place(all, want_event) implies !is_kind(
            #[trigger] all[j],
            want_event,
        ) by {
            if j > 0 {
                assert(all.skip(1)[j - 1] == all[j]);
            }
        }
        if kind_place(all, want_event) < all.len() {
            assert(all.skip(1)[kind_place(all, want_event) - 1] == all[kind_place(
                all,
                want_event,
            ) as int]);
        }
    }
}

/// What asking for one kind does to what was put back earlier, `stash`, and to what
/// waits behind it, `queue`: the item that was found, and both of them afterwards.
/// Whatever stood in front of it is put back, in its order.
pub open spec fn matching(
    stash: Seq<InboundView>,
    queue: Seq<InboundView>,
    want_event: bool,
) -> (Option<InboundView>, Seq<InboundView>, Seq<InboundView>) {
    let i = kind_place(stash, want_event) as int;
    let j = kind_place(queue, want_event) as int;
    if i < stash.len() {
        (Some(stash[i]), stash.remove(i), queue)
    } else if j < queue.len() {
        (Some(queue[j]), stash + queue.take(j), queue.skip(j + 1))
    } else {
        (None, stash + queue, seq![])
    }
}

/// An item that may have been found.
pub open spec fn maybe_inbound(i: Option<Inbound>) -> Option<InboundView> {
    match i {
        Some(i) => Some(i@),
        None => None,
    }
}

/// Move items from the front of `from` to the back of `onto` up to the first of a
/// kind, which is taken out.
fn pass_over(from: &mut VecDeque<Inbound>, onto: &mut VecDeque<Inbound>, want_event: bool) -> (found:
    Option<Inbound>)
    ensures
        ({
            let all = inbound_views(old(from)@);
            let i = kind_place(all, want_event) as int;
            &&& inbound_views(final(onto)@) == inbound_views(old(onto)@) + all.take(i)
            &&& i < all.len() ==> maybe_inbound(found) == Some(all[i]) && inbound_views(
                final(from)@,
            ) == all.skip(i + 1)
            &&& i >= all.len() ==> found is None && inbound_views(final(from)@) == Seq::<
                InboundView,
            >::empty()
        }),
{
    let ghost all = inbound_views(from@);
    let ghost start = inbound_views(onto@);
    let ghost mut k: int = 0;
    proof {
        kind_place_is_first(all, want_event);
        assert(inbound_views(from@) =~= all.skip(0));
        assert(inbound_views(onto@) =~= start + all.take(0));
    }
    while from.len() > 0
        invariant
            0 <= k <= all.len(),
            k <= kind_place(all, want_event) <= all.len(),
            kind_place(all, want_event) < all.len() ==> is_kind(
                all[kind_place(all, want_event) as int],
                want_event,
            ),
            forall|j: int|
                0 <= j < kind_place(all, want_event) ==> !is_kind(#[trigger] all[j], want_event),
            all == inbound_views(old(from)@),
            start == inbound_views(old(onto)@),
            inbound_views(from@) == all.skip(k),
            inbound_views(onto@) == start + all.take(k),
        decreases all.len() - k,
    {
        let ghost f = from@;
        let ghost o = onto@;
        assert(inbound_views(f).len() == f.len());
        if let Some(item) = from.pop_front() {
            assert(item == f[0]);
            assert(inbound_views(f)[0] == item@);
            assert(all[k] == item@);
            assert(inbound_views(from@) =~= inbound_views(f).skip(1));
            assert(all.skip(k).skip(1) =~= all.skip(k + 1));
            let event: bool = match item {
                Inbound::Event(_) => true,
                Inbound::Acl(_) => false,
            };
            if event == want_event {
                assert(is_kind(all[k], want_event));
                assert(kind_place(all, want_event) == k);
                return Some(item);
            }
            assert(!is_kind(all[k], want_event));
            let ghost v = item@;
            onto.push_back(item);
            assert(inbound_views(onto@) =~= inbound_views(o).push(v));
            assert((start + all.take(k)).push(v) =~= start + all.take(k + 1));
            proof {
                k = k + 1;
            }
        }
    }
    assert(inbound_views(from@).len() == 0);
    assert(k == all.len());
    assert(inbound_views(from@) =~= seq![]);
    None
}

/// Pull until one kind turns up, and keep everything else, in its order.
///
/// Whatever is passed over must be kept: a transport drains the events first and then
/// handles its packets, and would otherwise lose every input report that had queued up
/// behind an event. What arrives in order must come out in order, too.
pub fn take_matching(
    stash: &mut VecDeque<Inbound>,
    queue: &mut VecDeque<Inbound>,
    want_event: bool,
) -> (found: Option<Inbound>)
    ensures
        (
            maybe_inbound(found),
            inbound_views(final(stash)@),
            inbound_views(final(queue)@),
        ) == matching(inbound_views(old(stash)@), inbound_views(old(queue)@), want_event),
{
    let ghost s = inbound_views(stash@);
    let ghost q = inbound_views(queue@);
    proof {
        kind_place_is_first(s, want_event);
        kind_place_is_first(q, want_event);
    }
    let mut held: VecDeque<Inbound> = VecDeque::new();
    assert(inbound_views(held@) =~= seq![]);
    let found = pass_over(stash, &mut held, want_event);
    if found.is_some() {
        let ghost a = held@;
        let ghost b = stash@;
        held.append(stash);
        std::mem::swap(stash, &mut held);
        assert(inbound_views(a + b) =~= inbound_views(a) + inbound_views(b));
        assert(inbound_views(stash@) =~= s.remove(kind_place(s, want_event) as int));
        return found;
    }
    assert(inbound_views(held@) =~= s);
    let found = pass_over(queue, &mut held, want_event);
    std::mem::swap(stash, &mut held);
    assert(q.take(q.len() as int) =~= q);
    found
}

/// Asking for a kind loses nothing and reorders nothing: everything but the item that
/// was found is still there, in the same order.
pub proof fn passing_over_loses_nothing(
    stash: Seq<InboundView>,
    queue: Seq<InboundView>,
    want_event: bool,
)
    ensures
        ({
            let (found, s, q) = matching(stash, queue, want_event);
            let all = stash + queue;
            let i = kind_place(all, want_event) as int;
            &&& found is Some <==> i < all.len()
            &&& found is Some ==> found == Some(all[i]) && s + q == all.remove(i)
            &&& found is None ==> s + q == all
        }),
{
    let all = stash + queue;
    let i = kind_place(all, want_event) as int;
    kind_place_is_first(all, want_event);
    kind_place_is_first(stash, want_event);
    kind_place_is_first(queue, want_event);
    let a = kind_place(stash, want_event) as int;
    let b = kind_place(queue, want_event) as int;
    let (found, s, q) = matching(stash, queue, want_event);
    if a < stash.len() {
        assert(is_kind(all[a], want_event));
        if i < a {
            assert(all[i] == stash[i]);
        }
        assert(i == a);
        assert(s + q =~= all.remove(i));
    } else if b < queue.len() {
        assert(is_kind(all[stash.len() + b], want_event));
        if i < stash.len() {
            assert(all[i] == stash[i]);
        } else if i < stash.len() + b {
            assert(all[i] == queue[i - stash.len()]);
        }
        assert(i == stash.len() + b);
        assert(s + q =~= all.remove(i));
    } else {
        if i < stash.len() {
            assert(all[i] == stash[i]);
        } else if i < all.len() {
            assert(all[i] == queue[i - stash.len()]);
        }
        assert(s + q =~= all);
    }
}

/// What the next item is for the subscriber called `id`, what it then has put back, and the
/// bus then. What was put back earlier comes before what waits.
pub open spec fn received(stash: Seq<InboundView>, b: BusView, id: usize) -> (
    Option<InboundView>,
    Seq<InboundView>,
    BusView,
) {
    if stash.len() > 0 {
        (Some(stash[0]), stash.skip(1), b)
    } else {
        let (next, queue) = transport::next_of(queue_of(b, id));
        (next, stash, with_queue(b, id, queue))
    }
}

/// The events among `all`, in order.
pub open spec fn events_among(all: Seq<InboundView>) -> Seq<hci::EventView>
    decreases all.len(),
{
    if all.len() == 0 {
        seq![]
    } else {
        match all.last() {
            InboundView::Event(e) => events_among(all.drop_last()).push(e),
            InboundView::Acl(_) => events_among(all.drop_last()),
        }
    }
}

/// The packets among `all`, in order.
pub open spec fn packets_among(all: Seq<InboundView>) -> Seq<acl::AclPacketView>
    decreases all.len(),
{
    if all.len() == 0 {
        seq![]
    } else {
        match all.last() {
            InboundView::Acl(p) => packets_among(all.drop_last()).push(p),
            InboundView::Event(_) => packets_among(all.drop_last()),
        }
    }
}

/// One transport's view of the radio.
#[derive(Debug)]
pub struct Subscriber {
    pub id: usize,
    /// Items that were pulled while looking for a different kind, put back in order.
    pub stash: VecDeque<Inbound>,
}

impl Subscriber {
    /// Subscribe a transport to the radio.
    pub fn subscribe(bus: &mut Bus) -> (s: Subscriber)
        ensures
            final(bus)@ == joined(old(bus)@),
            s.id == old(bus)@.next_id,
            inbound_views(s.stash@) == Seq::<InboundView>::empty(),
    {
        let id: usize = bus.add();
        let s = Subscriber { id, stash: VecDeque::new() };
        assert(inbound_views(s.stash@) =~= seq![]);
        s
    }

    /// Next item for this transport: what was put back comes before what waits.
    pub fn recv(&mut self, bus: &mut Bus) -> (i: Option<Inbound>)
        ensures
            final(self).id == old(self).id,
            (maybe_inbound(i), inbound_views(final(self).stash@), final(bus)@) == received(
                inbound_views(old(self).stash@),
                old(bus)@,
                old(self).id,
            ),
    {
        let ghost stash = self.stash@;
        let ghost b = bus@;
        let ghost queue = queue_of(b, self.id);
        if let Some(item) = self.stash.pop_front() {
            assert(inbound_views(self.stash@) =~= inbound_views(stash).skip(1));
            return Some(item);
        }
        let mut q = bus.take_queue(self.id);
        let i = q.pop_front();
        assert(inbound_views(q@) =~= transport::next_of(queue).1);
        bus.put_queue(self.id, q);
        proof {
            with_queue_keeps_places(b, self.id, seq![]);
            assert(bus@ =~= with_queue(b, self.id, transport::next_of(queue).1));
        }
        i
    }

    /// Next item of one kind. Anything passed over is kept, not discarded.
    fn recv_matching(&mut self, bus: &mut Bus, want_event: bool) -> (i: Option<Inbound>)
        ensures
            final(self).id == old(self).id,
            ({
                let (found, stash, queue) = matching(
                    inbound_views(old(self).stash@),
                    queue_of(old(bus)@, old(self).id),
                    want_event,
                );
                &&& maybe_inbound(i) == found
                &&& inbound_views(final(self).stash@) == stash
                &&& final(bus)@ == with_queue(old(bus)@, old(self).id, queue)
            }),
    {
        let ghost b = bus@;
        let mut q = bus.take_queue(self.id);
        let i = take_matching(&mut self.stash, &mut q, want_event);
        bus.put_queue(self.id, q);
        proof {
            with_queue_keeps_places(b, self.id, seq![]);
            assert(bus@ =~= with_queue(b, self.id, inbound_views(q@)));
        }
        i
    }

    /// Next event. Anything passed over is kept, not discarded.
    pub fn recv_event(&mut self, bus: &mut Bus) -> (e: Option<Event>)
        ensures
            final(self).id == old(self).id,
            ({
                let (found, stash, queue) = matching(
                    inbound_views(old(self).stash@),
                    queue_of(old(bus)@, old(self).id),
                    true,
                );
                &&& match e {
                    Some(e) => found == Some(InboundView::Event(e@)),
                    None => found is None,
                }
                &&& inbound_views(final(self).stash@) == stash
                &&& final(bus)@ == with_queue(old(bus)@, old(self).id, queue)
            }),
    {
        proof {
            kind_place_is_first(inbound_views(self.stash@), true);
            kind_place_is_first(queue_of(bus@, self.id), true);
        }
        match self.recv_matching(bus, true) {
            Some(Inbound::Event(e)) => Some(e),
            _ => None,
        }
    }

    /// Next packet. Anything passed over is kept, not discarded.
    pub fn recv_acl(&mut self, bus: &mut Bus) -> (p: Option<AclPacket>)
        ensures
            final(self).id == old(self).id,
            ({
                let (found, stash, queue) = matching(
                    inbound_views(old(self).stash@),
                    queue_of(old(bus)@, old(self).id),
                    false,
                );
                &&& match p {
                    Some(p) => found == Some(InboundView::Acl(p@)),
                    None => found is None,
                }
                &&& inbound_views(final(self).stash@) == stash
                &&& final(bus)@ == with_queue(old(bus)@, old(self).id, queue)
            }),
    {
        proof {
            kind_place_is_first(inbound_views(self.stash@), false);
            kind_place_is_first(queue_of(bus@, self.id), false);
        }
        match self.recv_matching(bus, false) {
            Some(Inbound::Acl(p)) => Some(p),
            _ => None,
        }
    }

    /// Hand everything that this subscriber holds back to the inbox of the dongle, at
    /// its front and in order, for a conversation that reads the dongle itself.
    ///
    /// Stopping the reader cannot un-read what it already read: the first events of the
    /// very conversation may have been handed out a moment before it stopped.
    pub fn reclaim(&mut self, bus: &mut Bus, inbox: &mut Inbox)
        ensures
            final(self).id == old(self).id,
            inbound_views(final(self).stash@) == Seq::<InboundView>::empty(),
            final(bus)@ == with_queue(old(bus)@, old(self).id, seq![]),
            ({
                let all = inbound_views(old(self).stash@) + queue_of(old(bus)@, old(self).id);
                &&& final(inbox)@.events == events_among(all) + old(inbox)@.events
                &&& final(inbox)@.packets == packets_among(all) + old(inbox)@.packets
            }),
    {
        let ghost s = self.stash@;
        let mut all: VecDeque<Inbound> = VecDeque::new();
        all.append(&mut self.stash);
        let mut q = bus.take_queue(self.id);
        let ghost w = q@;
        all.append(&mut q);
        assert(all@ =~= s + w);
        assert(inbound_views(s + w) =~= inbound_views(s) + inbound_views(w));
        assert(inbound_views(self.stash@) =~= seq![]);
        let (events, packets) = part(all);
        inbox.push_events_front(events);
        inbox.push_acl_front(packets);
    }
}

/// Part the events from the packets, each in order.
fn part(all: VecDeque<Inbound>) -> (r: (Vec<Event>, Vec<AclPacket>))
    ensures
        transport::event_views(r.0@) == events_among(inbound_views(all@)),
        acl::packet_views(r.1@) == packets_among(inbound_views(all@)),
{
    let mut all = all;
    let ghost whole = inbound_views(all@);
    let ghost mut k: int = 0;
    let mut events: Vec<Event> = Vec::new();
    let mut packets: Vec<AclPacket> = Vec::new();
    proof {
        assert(inbound_views(all@) =~= whole.skip(0));
        assert(whole.take(0) =~= seq![]);
        assert(transport::event_views(events@) =~= events_among(whole.take(0)));
        assert(acl::packet_views(packets@) =~= packets_among(whole.take(0)));
    }
    while all.len() > 0
        invariant
            0 <= k <= whole.len(),
            inbound_views(all@) == whole.skip(k),
            transport::event_views(events@) == events_among(whole.take(k)),
            acl::packet_views(packets@) == packets_among(whole.take(k)),
        decreases whole.len() - k,
    {
        let ghost before = all@;
        assert(inbound_views(before).len() == before.len());
        if let Some(item) = all.pop_front() {
            assert(inbound_views(before)[0] == item@);
            assert(whole[k] == item@);
            assert(inbound_views(all@) =~= inbound_views(before).skip(1));
            assert(whole.skip(k).skip(1) =~= whole.skip(k + 1));
            assert(whole.take(k + 1).drop_last() =~= whole.take(k));
            assert(whole.take(k + 1).last() == whole[k]);
            let ghost ev = transport::event_views(events@);
            let ghost pv = acl::packet_views(packets@);
            match item {
                Inbound::Event(e) => {
                    let ghost v = e@;
                    events.push(e);
                    assert(transport::event_views(events@) =~= ev.push(v));
                },
                Inbound::Acl(p) => {
                    let ghost v = p@;
                    packets.push(p);
                    assert(acl::packet_views(packets@) =~= pv.push(v));
                },
            }
            proof {
                k = k + 1;
            }
        }
    }
    assert(inbound_views(all@).len() == 0);
    assert(whole.take(k) =~= whole);
    (events, packets)
}

/// Every subscriber receives every packet: whoever is on the bus has it behind everything
/// that they have not read yet, the oldest of which makes room where the queue is full.
pub proof fn everybody_receives_everything(b: BusView, item: InboundView, i: int)
    requires
        0 <= i < b.subs.len(),
    ensures
        broadcast_to(b, item).subs.len() == b.subs.len(),
        broadcast_to(b, item).subs[i].id == b.subs[i].id,
        broadcast_to(b, item).subs[i].queue == (if b.subs[i].queue.len() >= QUEUE_LIMIT {
            b.subs[i].queue.skip(1).push(item)
        } else {
            b.subs[i].queue.push(item)
        }),
        broadcast_to(b, item).subs[i].queue.last() == item,
{
}

/// A subscriber that left receives nothing more.
pub proof fn who_left_receives_nothing(b: BusView, id: usize, item: InboundView)
    requires
        orderly(b),
    ensures
        ({
            let c = broadcast_to(without(b, id), item);
            &&& place(c.subs, id) == c.subs.len()
            &&& queue_of(c, id) == Seq::<InboundView>::empty()
        }),
{
    leaving_is_final(b, id);
    let d = without(b, id);
    let c = broadcast_to(d, item);
    place_is_first(d.subs, id);
    assert forall|j: int| 0 <= j < c.subs.len() implies (#[trigger] c.subs[j]).id != id by {
        assert(d.subs[j].id != id);
    }
    place_unique(c.subs, id, c.subs.len() as int);
}

/// Whether nobody is further behind than allowed.
pub open spec fn bounded(b: BusView) -> bool {
    forall|i: int| 0 <= i < b.subs.len() ==> (#[trigger] b.subs[i]).queue.len() <= QUEUE_LIMIT
}

/// Nothing that happens on the bus lets a queue grow past its bound.
pub proof fn queues_stay_bounded(b: BusView, item: InboundView, id: usize)
    requires
        bounded(b),
    ensures
        bounded(broadcast_to(b, item)),
        bounded(joined(b)),
        bounded(without(b, id)),
{
    assert forall|i: int| 0 <= i < b.subs.len() implies (#[trigger] broadcast_to(
        b,
        item,
    ).subs[i]).queue.len() <= QUEUE_LIMIT by {
        assert(b.subs[i].queue.len() <= QUEUE_LIMIT);
    }
    let c = without(b, id);
    assert forall|i: int| 0 <= i < c.subs.len() implies (#[trigger] c.subs[i]).queue.len()
        <= QUEUE_LIMIT by {
        assert(b.subs[i].queue.len() <= QUEUE_LIMIT);
        if i + 1 < b.subs.len() {
            assert(b.subs[i + 1].queue.len() <= QUEUE_LIMIT);
        }
    }
}

/// A subscriber once all of `items` were handed to it and it read none.
pub open spec fn handed_all(s: SubView, items: Seq<InboundView>) -> SubView
    decreases items.len(),
{
    if items.len() == 0 {
        s
    } else {
        handed(handed_all(s, items.drop_last()), items.last())
    }
}

/// A subscriber that stops reading keeps the newest items up to the bound, in order,
/// and the count of what it missed is exact.
pub proof fn falling_behind_drops_the_oldest(id: usize, items: Seq<InboundView>)
    requires
        items.len() <= usize::MAX,
    ensures
        handed_all(SubView { id, queue: seq![], dropped: 0 }, items) == (if items.len()
            <= QUEUE_LIMIT {
            SubView { id, queue: items, dropped: 0 }
        } else {
            SubView {
                id,
                queue: items.skip(items.len() - QUEUE_LIMIT),
                dropped: (items.len() - QUEUE_LIMIT) as usize,
            }
        }),
    decreases items.len(),
{
    let fresh = SubView { id, queue: seq![], dropped: 0 };
    if items.len() > 0 {
        let before = items.drop_last();
        falling_behind_drops_the_oldest(id, before);
        let s = handed_all(fresh, before);
        if items.len() <= QUEUE_LIMIT {
            assert(before.push(items.last()) =~= items);
        } else {
            assert(s.queue.skip(1).push(items.last()) =~= items.skip(
                items.len() - QUEUE_LIMIT,
            ));
        }
    } else {
        assert(fresh.queue =~= items);
    }
}

/// Whether the subscribers have names of their own, all of them given out already.
pub open spec fn orderly(b: BusView) -> bool {
    &&& forall|i: int| 0 <= i < b.subs.len() ==> (#[trigger] b.subs[i]).id < b.next_id
    &&& forall|i: int, j: int|
        0 <= i < j < b.subs.len() ==> (#[trigger] b.subs[i]).id < (#[trigger] b.subs[j]).id
}

/// Names stay apart, whatever happens on the bus, as long as there are numbers left to
/// give out.
pub proof fn names_stay_apart(b: BusView, item: InboundView, id: usize)
    requires
        orderly(b),
    ensures
        orderly(broadcast_to(b, item)),
        b.next_id < usize::MAX ==> orderly(joined(b)),
        orderly(without(b, id)),
{
    let c = broadcast_to(b, item);
    assert(forall|i: int| 0 <= i < c.subs.len() ==> (#[trigger] c.subs[i]).id == b.subs[i].id);
    let d = without(b, id);
    let at = place(b.subs, id) as int;
    assert forall|i: int, j: int| 0 <= i < j < d.subs.len() implies (#[trigger] d.subs[i]).id < (
    #[trigger] d.subs[j]).id by {
        if at < b.subs.len() {
            let oi = if i < at {
                i
            } else {
                i + 1
            };
            let oj = if j < at {
                j
            } else {
                j + 1
            };
            assert(d.subs[i] == b.subs[oi]);
            assert(d.subs[j] == b.subs[oj]);
        }
    }
}

/// A subscriber that left is gone, and everybody else is still there.
pub proof fn leaving_is_final(b: BusView, id: usize)
    requires
        orderly(b),
    ensures
        queue_of(without(b, id), id) == Seq::<InboundView>::empty(),
        place(without(b, id).subs, id) == without(b, id).subs.len(),
        forall|i: int|
            0 <= i < b.subs.len() && (#[trigger] b.subs[i]).id != id ==> without(
                b,
                id,
            ).subs.contains(b.subs[i]),
{
    place_is_first(b.subs, id);
    let c = without(b, id);
    let at = place(b.subs, id) as int;
    assert forall|j: int| 0 <= j < c.subs.len() implies (#[trigger] c.subs[j]).id != id by {
        if at < b.subs.len() {
            if j < at {
                assert(c.subs[j] == b.subs[j]);
            } else {
                assert(c.subs[j] == b.subs[j + 1]);
                assert(b.subs[at].id < b.subs[j + 1].id);
            }
        } else {
            assert(c.subs[j] == b.subs[j]);
        }
    }
    place_unique(c.subs, id, c.subs.len() as int);
    assert forall|i: int| 0 <= i < b.subs.len() && (#[trigger] b.subs[i]).id != id implies c.subs.contains(
        b.subs[i],
    ) by {
        if at < b.subs.len() && i > at {
            assert(c.subs[i - 1] == b.subs[i]);
        } else {
            assert(c.subs[i] == b.subs[i]);
        }
    }
}

/// The highest handle that a link of an earlier run may have. Handles are given out
/// from the bottom, one for each link, and no adapter carries more than a handful.
pub const LAST_STALE_HANDLE: u16 = 8;

/// The handles that a link of an earlier run may have.
pub open spec fn stale() -> Seq<u16> {
    Seq::new(LAST_STALE_HANDLE as nat, |i: int| (i + 1) as u16)
}

/// The handles to disconnect before anything is connected. A link lives in the dongle,
/// not in the process that made it: one that an earlier run left open makes its
/// controller invisible in every direction.
pub fn stale_handles() -> (v: Vec<u16>)
    ensures
        v@ == stale(),
{
    let mut v: Vec<u16> = Vec::new();
    let mut h: u16 = 0;
    while h < LAST_STALE_HANDLE
        invariant
            h <= LAST_STALE_HANDLE,
            v@.len() == h,
            forall|i: int| 0 <= i < h ==> v@[i] == (i + 1) as u16,
        decreases LAST_STALE_HANDLE - h,
    {
        h += 1;
        v.push(h);
    }
    assert(v@ =~= Seq::new(LAST_STALE_HANDLE as nat, |i: int| (i + 1) as u16));
    v
}

/// Counting on goes to the next number, and behind the last one starts over at zero.
pub proof fn counting_goes_round(n: usize)
    ensures
        n < usize::MAX ==> following(n) == n + 1,
        following(usize::MAX) == 0,
{
}

/// The events and the packets of two stretches are those of the first and then those of the
/// second, and each item is one of the two.
pub proof fn kinds_are_kept_in_order(
    a: Seq<InboundView>,
    b: Seq<InboundView>,
    e: hci::EventView,
    p: acl::AclPacketView,
)
    ensures
        events_among(a + b) == events_among(a) + events_among(b),
        packets_among(a + b) == packets_among(a) + packets_among(b),
        events_among(seq![InboundView::Event(e)]) == seq![e],
        events_among(seq![InboundView::Acl(p)]) == Seq::<hci::EventView>::empty(),
        packets_among(seq![InboundView::Acl(p)]) == seq![p],
        packets_among(seq![InboundView::Event(e)]) == Seq::<acl::AclPacketView>::empty(),
        events_among(a).len() + packets_among(a).len() == a.len(),
    decreases b.len(), a.len(),
{
    let none = Seq::<InboundView>::empty();
    assert(seq![InboundView::Event(e)].drop_last() =~= none);
    assert(seq![InboundView::Acl(p)].drop_last() =~= none);
    assert(events_among(none) =~= seq![] && packets_among(none) =~= seq![]);
    if a.len() > 0 {
        kinds_are_kept_in_order(a.drop_last(), none, e, p);
    }
    if b.len() == 0 {
        assert(a + b =~= a);
        assert(events_among(a) + events_among(b) =~= events_among(a));
        assert(packets_among(a) + packets_among(b) =~= packets_among(a));
    } else {
        kinds_are_kept_in_order(a, b.drop_last(), e, p);
        assert((a + b).drop_last() =~= a + b.drop_last());
        assert((a + b).last() == b.last());
        assert(events_among(a + b) =~= events_among(a) + events_among(b));
        assert(packets_among(a + b) =~= packets_among(a) + packets_among(b));
    }
}

/// Setting the queue of a subscriber sets it, and leaves what waits for anybody else, how much
/// anybody has missed and who comes next.
pub proof fn a_queue_is_set_for_one(b: BusView, id: usize, other: usize, queue: Seq<InboundView>)
    requires
        other != id,
    ensures
        ({
            let n = with_queue(b, id, queue);
            &&& place(b.subs, id) < b.subs.len() ==> queue_of(n, id) == queue
            &&& queue_of(n, other) == queue_of(b, other)
            &&& n.next_id == b.next_id && n.subs.len() == b.subs.len()
            &&& forall|i: int|
                0 <= i < b.subs.len() ==> (#[trigger] n.subs[i]).id == b.subs[i].id
                    && n.subs[i].dropped == b.subs[i].dropped
        }),
{
    let n = with_queue(b, id, queue);
    place_is_first(b.subs, id);
    place_is_first(b.subs, other);
    let at = place(b.subs, id) as int;
    let o = place(b.subs, other) as int;
    assert forall|j: int| 0 <= j < at implies (#[trigger] n.subs[j]).id != id by {
        assert(b.subs[j].id != id);
    }
    assert forall|j: int| 0 <= j < o implies (#[trigger] n.subs[j]).id != other by {
        assert(b.subs[j].id != other);
    }
    place_unique(n.subs, id, at);
    place_unique(n.subs, other, o);
}

/// A subscriber receives everything in the order in which it came, what it put back first, and
/// takes nothing from anybody else.
pub proof fn everything_is_received_in_order(
    stash: Seq<InboundView>,
    b: BusView,
    id: usize,
    other: usize,
)
    requires
        other != id,
    ensures
        ({
            let (item, left, n) = received(stash, b, id);
            let all = stash + queue_of(b, id);
            &&& item is Some <==> all.len() > 0
            &&& item is Some ==> seq![item->0] + left + queue_of(n, id) == all
            &&& item is None ==> left + queue_of(n, id) == all
            &&& queue_of(n, other) == queue_of(b, other)
        }),
{
    let (item, left, n) = received(stash, b, id);
    let all = stash + queue_of(b, id);
    let rest = transport::next_of(queue_of(b, id)).1;
    a_queue_is_set_for_one(b, id, other, rest);
    if item is Some {
        assert(seq![item->0] + left + queue_of(n, id) =~= all);
    } else {
        assert(left + queue_of(n, id) =~= all);
    }
}

/// The links that an earlier run may have left are closed from the bottom, none left out: the
/// handles count on from one.
pub proof fn stale_links_are_closed_from_the_bottom(h: u16)
    ensures
        stale().contains(h) <==> 1 <= h <= 8,
        forall|i: int| 0 <= i < stale().len() ==> #[trigger] stale()[i] == i + 1,
{
    if 1 <= h <= 8 {
        assert(stale()[h - 1] == h);
    }
}

/// A subscriber misses one item for each that comes while as much waits for it as may, and none
/// otherwise; a newcomer has missed nothing, and what nobody subscribed to has no count.
pub proof fn a_full_queue_costs_one(b: BusView, id: usize, item: InboundView)
    ensures
        missed(b, id) is None <==> forall|i: int|
            0 <= i < b.subs.len() ==> (#[trigger] b.subs[i]).id != id,
        missed(b, id) matches Some(n) ==> missed(broadcast_to(b, item), id) == Some(
            if queue_of(b, id).len() >= 512 {
                following(n)
            } else {
                n
            },
        ),
        missed(b, b.next_id) is None ==> missed(joined(b), b.next_id) == Some(0usize),
{
    let now = broadcast_to(b, item);
    place_is_first(b.subs, id);
    let at = place(b.subs, id) as int;
    assert forall|j: int| 0 <= j < at implies (#[trigger] now.subs[j]).id != id by {
        assert(b.subs[j].id != id);
    }
    place_unique(now.subs, id, at);
    let k = b.next_id;
    place_is_first(b.subs, k);
    let more = joined(b);
    let n = b.subs.len() as int;
    if missed(b, k) is None {
        assert forall|j: int| 0 <= j < n implies (#[trigger] more.subs[j]).id != k by {
            assert(b.subs[j].id != k);
        }
        place_unique(more.subs, k, n);
    }
}

} // verus!
