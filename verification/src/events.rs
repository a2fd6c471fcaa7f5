//! Simulation events and the queue that hands them out in order.

use crate::double::Double;
use crate::model::{LinkID, PipeIdx, VehID};
use vstd::multiset::Multiset;
use vstd::prelude::*;

verus! {

#[derive(Debug, Clone, Copy, PartialEq, Eq, Structural)]
pub enum EventType {
    /// Override boundary: apply entry `veh_id` of the schedule to its link.
    ApplyPatch,
    VehicleEntry,
    VehicleArrival,
    LinkExit,
    LinkReady,
}

/// Every event is addressed to a pipe of a link: `pipe` selects the stream
/// within the link (always 0 on single-pipe links).
#[derive(Debug, Clone, Copy, PartialEq, Eq, Structural)]
pub struct Event {
    pub time: Double,
    pub event_type: EventType,
    pub link_id: LinkID,
    pub veh_id: VehID,
    pub pipe: PipeIdx,
}

impl EventType {
    pub open spec fn spec_order_key(self) -> u8 {
        match self {
            EventType::ApplyPatch => 0,
            EventType::LinkReady => 1,
            EventType::LinkExit => 2,
            EventType::VehicleArrival => 3,
            EventType::VehicleEntry => 4,
        }
    }

    /// Rank among simultaneous events. Overrides apply first, so that the new
    /// parameters govern everything at that time; events that free capacity
    /// come before those that consume it.
    #[verifier::when_used_as_spec(spec_order_key)]
    pub fn order_key(self) -> (k: u8)
        ensures
            k == self.spec_order_key(),
    {
        match self {
            EventType::ApplyPatch => 0,
            EventType::LinkReady => 1,
            EventType::LinkExit => 2,
            EventType::VehicleArrival => 3,
            EventType::VehicleEntry => 4,
        }
    }
}

impl Event {
    /// Processing order: time, then rank of the type, vehicle, link and pipe.
    /// Times that are the same number in two notations come last.
    #[verifier::opaque]
    pub open spec fn precedes(self, other: Event) -> bool {
        if self.time.key() != other.time.key() {
            self.time.key() < other.time.key()
        } else if self.event_type.order_key() != other.event_type.order_key() {
            self.event_type.order_key() < other.event_type.order_key()
        } else if self.veh_id != other.veh_id {
            self.veh_id < other.veh_id
        } else if self.link_id != other.link_id {
            self.link_id < other.link_id
        } else if self.pipe != other.pipe {
            self.pipe < other.pipe
        } else {
            self.time.rank() < other.time.rank()
        }
    }

    /// Whether this event is processed before the other.
    pub fn is_before(self, other: Event) -> (r: bool)
        ensures
            r == self.precedes(other),
    {
        reveal(Event::precedes);
        if !self.time.same_key(other.time) {
            self.time.below_key(other.time)
        } else if self.event_type.order_key() != other.event_type.order_key() {
            self.event_type.order_key() < other.event_type.order_key()
        } else if self.veh_id != other.veh_id {
            self.veh_id < other.veh_id
        } else if self.link_id != other.link_id {
            self.link_id < other.link_id
        } else if self.pipe != other.pipe {
            self.pipe < other.pipe
        } else {
            self.time.before(other.time)
        }
    }
}

/// The processing order is a strict total order: two events that do not precede
/// each other are the same event.
pub proof fn law_event_order_total(a: Event, b: Event, c: Event)
    ensures
        !a.precedes(a),
        a.precedes(b) && b.precedes(c) ==> a.precedes(c),
        a != b ==> a.precedes(b) || b.precedes(a),
{
    reveal(Event::precedes);
    a.time.lemma_bits_from_rank(b.time);
}

/// `e` is handed out next: it is in the queue, and nothing in it precedes `e`.
pub open spec fn is_next(events: Multiset<Event>, e: Event) -> bool {
    &&& events.count(e) > 0
    &&& forall|f: Event| #[trigger] events.count(f) > 0 ==> !f.precedes(e)
}

/// The event that is handed out next from a queue that is not empty.
pub open spec fn next_event(events: Multiset<Event>) -> Event {
    choose|e: Event| is_next(events, e)
}

/// At most one event comes next.
pub proof fn law_next_event_unique(events: Multiset<Event>, e: Event)
    requires
        is_next(events, e),
    ensures
        next_event(events) == e,
{
    law_event_order_total(next_event(events), e, e);
}

/// A queue that is not empty has an event that comes next.
pub proof fn law_next_event_exists(events: Multiset<Event>)
    requires
        events.len() > 0,
    ensures
        is_next(events, next_event(events)),
{
    let e = lemma_first(events);
    assert(is_next(events, e));
}

proof fn lemma_first(events: Multiset<Event>) -> (e: Event)
    requires
        events.len() > 0,
    ensures
        is_next(events, e),
    decreases events.len(),
{
    broadcast use vstd::multiset::group_multiset_axioms;

    let x = events.choose();
    assert(events.count(x) > 0);
    let rest = events.remove(x);
    assert(rest.len() == events.len() - 1);
    law_event_order_total(x, x, x);
    lemma_order();
    if rest.len() == 0 {
        assert forall|f: Event| #[trigger] events.count(f) > 0 implies !f.precedes(x) by {
            if f != x {
                assert(rest.count(f) > 0);
                assert(rest.len() > 0);
            }
        }
        x
    } else {
        let m = lemma_first(rest);
        assert(rest.count(m) > 0);
        assert forall|f: Event| #[trigger] events.count(f) > 0 && f != x implies rest.count(f)
            > 0 by {}
        if x.precedes(m) {
            x
        } else {
            m
        }
    }
}

/// Events in a binary heap.
#[derive(Debug)]
pub struct EventQueue {
    items: Vec<Event>,
}

impl View for EventQueue {
    type V = Multiset<Event>;

    closed spec fn view(&self) -> Multiset<Event> {
        self.items@.to_multiset()
    }
}

/// No event precedes its parent, but for the one at `hole`.
spec fn heap_but(s: Seq<Event>, hole: int) -> bool {
    forall|i: int|
        0 < i < s.len() && i != hole ==> !#[trigger] s[i].precedes(s[(i - 1) / 2])
}

/// No event precedes its parent, but for the children of `hole`.
spec fn heap_above(s: Seq<Event>, hole: int) -> bool {
    forall|i: int|
        0 < i < s.len() && (i - 1) / 2 != hole ==> !#[trigger] s[i].precedes(s[(i - 1) / 2])
}

/// No child of `hole` precedes the parent of `hole`.
spec fn bridges(s: Seq<Event>, hole: int) -> bool {
    hole > 0 ==> forall|i: int|
        0 < i < s.len() && (i - 1) / 2 == hole ==> !#[trigger] s[i].precedes(s[(hole - 1) / 2])
}

/// Not preceding is transitive, and preceding is asymmetric.
proof fn lemma_order()
    ensures
        forall|a: Event, b: Event| #[trigger] a.precedes(b) ==> !b.precedes(a),
        forall|a: Event, b: Event, c: Event|
            !#[trigger] a.precedes(b) && !#[trigger] b.precedes(c) ==> !a.precedes(c),
        forall|a: Event, b: Event, c: Event|
            #[trigger] a.precedes(b) && !#[trigger] c.precedes(b) ==> !c.precedes(a),
{
    reveal(Event::precedes);
}

/// The first event of a heap comes next.
proof fn lemma_root_first(s: Seq<Event>, i: int)
    requires
        heap_but(s, -1),
        0 <= i < s.len(),
    ensures
        !s[i].precedes(s[0]),
    decreases i,
{
    if i == 0 {
        law_event_order_total(s[0], s[0], s[0]);
    } else {
        lemma_root_first(s, (i - 1) / 2);
        assert(!s[i].precedes(s[(i - 1) / 2]));
        lemma_order();
    }
}

/// Swapping two places keeps the contents.
proof fn lemma_swap_contents(s: Seq<Event>, i: int, j: int)
    requires
        0 <= i < s.len(),
        0 <= j < s.len(),
    ensures
        s.update(i, s[j]).update(j, s[i]).to_multiset() =~= s.to_multiset(),
{
    broadcast use vstd::seq_lib::group_to_multiset_ensures;

    let t = s.update(i, s[j]);
    vstd::seq_lib::to_multiset_update(s, i, s[j]);
    vstd::seq_lib::to_multiset_update(t, j, s[i]);
}

impl EventQueue {
    pub closed spec fn wf(self) -> bool {
        heap_but(self.items@, -1)
    }

    /// An empty queue.
    pub fn new() -> (q: Self)
        ensures
            q.wf(),
            q@ == Multiset::<Event>::empty(),
    {
        broadcast use vstd::seq_lib::group_to_multiset_ensures;

        let q = EventQueue { items: Vec::new() };
        assert(q@ =~= Multiset::empty());
        q
    }

    /// Whether no event is left.
    pub fn is_empty(&self) -> (r: bool)
        ensures
            r == (self@.len() == 0),
    {
        broadcast use vstd::seq_lib::group_to_multiset_ensures;

        self.items.len() == 0
    }

    /// Puts an event into the queue.
    pub fn push(&mut self, e: Event)
        requires
            old(self).wf(),
        ensures
            final(self).wf(),
            final(self)@ == old(self)@.insert(e),
    {
        broadcast use vstd::seq_lib::group_to_multiset_ensures;

        let mut i: usize = self.items.len();
        self.items.push(e);
        let ghost contents = self.items@.to_multiset();
        while i > 0 && self.items[i].is_before(self.items[(i - 1) / 2])
            invariant
                i < self.items@.len(),
                heap_but(self.items@, i as int),
                bridges(self.items@, i as int),
                self.items@.to_multiset() == contents,
            decreases i,
        {
            let p: usize = (i - 1) / 2;
            let ghost s = self.items@;
            let child: Event = self.items[i];
            let parent: Event = self.items[p];
            self.items.set(i, parent);
            self.items.set(p, child);
            proof {
                lemma_swap_contents(s, i as int, p as int);
                lemma_sift_up(s, i as int);
            }
            i = p;
        }
        proof {
            assert(heap_but(self.items@, -1)) by {
                assert forall|j: int| 0 < j < self.items@.len() implies !#[trigger] self.items@[j]
                    .precedes(self.items@[(j - 1) / 2]) by {}
            }
        }
    }

    /// Takes the next event out of the queue.
    pub fn pop(&mut self) -> (r: Option<Event>)
        requires
            old(self).wf(),
        ensures
            final(self).wf(),
            r matches None <==> old(self)@.len() == 0,
            r is None ==> final(self)@ == old(self)@,
            r matches Some(e) ==> is_next(old(self)@, e) && final(self)@ == old(self)@.remove(e),
    {
        broadcast use vstd::seq_lib::group_to_multiset_ensures;

        let ghost before = self.items@;
        let n: usize = self.items.len();
        if n == 0 {
            return None;
        }
        let first: Event = self.items[0];
        proof {
            assert forall|f: Event| #[trigger] before.to_multiset().count(f)
                > 0 implies !f.precedes(first) by {
                let j = choose|j: int| 0 <= j < before.len() && before[j] == f;
                lemma_root_first(before, j);
            }
        }
        let last: Event = self.items[n - 1];
        let _ = self.items.pop();
        if n == 1 {
            proof {
                assert(before.remove(0) =~= self.items@);
            }
            return Some(first);
        }
        self.items.set(0, last);
        proof {
            lemma_replace_root(before);
            assert(self.items@ =~= before.drop_last().update(0, before.last()));
        }
        let ghost contents = self.items@.to_multiset();
        let len: usize = n - 1;
        let mut i: usize = 0;
        // `2 * i + 1 < len`, without overflow.
        while i < len / 2
            invariant
                len == self.items@.len(),
                i < len,
                heap_above(self.items@, i as int),
                bridges(self.items@, i as int),
                self.items@.to_multiset() == contents,
            ensures
                heap_but(self.items@, -1),
                self.items@.to_multiset() == contents,
            decreases len - i,
        {
            let left: usize = 2 * i + 1;
            let c: usize = if left + 1 < len && self.items[left + 1].is_before(self.items[left]) {
                left + 1
            } else {
                left
            };
            if !self.items[c].is_before(self.items[i]) {
                proof {
                    lemma_order();
                    let s = self.items@;
                    assert forall|j: int| 0 < j < s.len() implies !#[trigger] s[j].precedes(
                        s[(j - 1) / 2],
                    ) by {
                        if (j - 1) / 2 == i {
                            assert(j == left || j == left + 1);
                        }
                    }
                }
                break;
            }
            let ghost s = self.items@;
            let child: Event = self.items[c];
            let parent: Event = self.items[i];
            self.items.set(i, child);
            self.items.set(c, parent);
            proof {
                lemma_swap_contents(s, i as int, c as int);
                lemma_order();
                law_event_order_total(s[c as int], s[c as int], s[c as int]);
                assert forall|j: int| 0 < j < s.len() && (j - 1) / 2 == i implies !#[trigger] s[j]
                    .precedes(s[c as int]) by {
                    assert(j == left || j == left + 1);
                }
                lemma_sift_down(s, i as int, c as int);
            }
            i = c;
        }
        Some(first)
    }
}

/// Swapping a child that precedes its parent moves the hole up.
proof fn lemma_sift_up(s: Seq<Event>, i: int)
    requires
        0 < i < s.len(),
        heap_but(s, i),
        bridges(s, i),
        s[i].precedes(s[(i - 1) / 2]),
    ensures
        heap_but(s.update(i, s[(i - 1) / 2]).update((i - 1) / 2, s[i]), (i - 1) / 2),
        bridges(s.update(i, s[(i - 1) / 2]).update((i - 1) / 2, s[i]), (i - 1) / 2),
{
    lemma_order();
    let p = (i - 1) / 2;
    let t = s.update(i, s[p]).update(p, s[i]);
    assert forall|j: int| 0 < j < t.len() && j != p implies !#[trigger] t[j].precedes(
        t[(j - 1) / 2],
    ) by {
        assert(j != i ==> !s[j].precedes(s[(j - 1) / 2]));
    }
    if p > 0 {
        assert(!s[p].precedes(s[(p - 1) / 2]));
        assert forall|j: int| 0 < j < t.len() && (j - 1) / 2 == p implies !#[trigger] t[j].precedes(
            t[(p - 1) / 2],
        ) by {
            assert(j != i ==> !s[j].precedes(s[(j - 1) / 2]));
        }
    }
}

/// Swapping a parent with the first of its children moves the hole down.
proof fn lemma_sift_down(s: Seq<Event>, i: int, c: int)
    requires
        0 <= i < c < s.len(),
        (c - 1) / 2 == i,
        heap_above(s, i),
        bridges(s, i),
        s[c].precedes(s[i]),
        forall|j: int| 0 < j < s.len() && (j - 1) / 2 == i ==> !#[trigger] s[j].precedes(s[c]),
    ensures
        heap_above(s.update(i, s[c]).update(c, s[i]), c),
        bridges(s.update(i, s[c]).update(c, s[i]), c),
{
    lemma_order();
    let t = s.update(i, s[c]).update(c, s[i]);
    assert forall|j: int| 0 < j < t.len() && (j - 1) / 2 != c implies !#[trigger] t[j].precedes(
        t[(j - 1) / 2],
    ) by {
        if (j - 1) / 2 == i {
            if j != c {
                assert(!s[j].precedes(s[c]));
            }
        } else if j == i {
            assert(!s[c].precedes(s[(i - 1) / 2]));
        } else {
            assert(!s[j].precedes(s[(j - 1) / 2]));
        }
    }
    assert forall|j: int| 0 < j < t.len() && (j - 1) / 2 == c implies !#[trigger] t[j].precedes(
        t[(c - 1) / 2],
    ) by {
        assert(!s[j].precedes(s[(j - 1) / 2]));
    }
}

/// Moving the last event to the front takes the first one out.
proof fn lemma_replace_root(s: Seq<Event>)
    requires
        s.len() > 1,
        heap_but(s, -1),
    ensures
        s.drop_last().update(0, s.last()).to_multiset() =~= s.to_multiset().remove(s[0]),
        heap_above(s.drop_last().update(0, s.last()), 0),
{
    broadcast use vstd::seq_lib::group_to_multiset_ensures;

    let d = s.drop_last();
    assert(d.push(s.last()) =~= s);
    vstd::seq_lib::to_multiset_update(d, 0, s.last());
    assert(d[0] == s[0]);
    assert(d.to_multiset().count(s[0]) > 0);
    let t = d.update(0, s.last());
    assert forall|j: int| 0 < j < t.len() && (j - 1) / 2 != 0 implies !#[trigger] t[j].precedes(
        t[(j - 1) / 2],
    ) by {
        assert(!s[j].precedes(s[(j - 1) / 2]));
    }
}

} // verus!
