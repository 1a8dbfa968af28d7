//! Sweep events and the queue that hands them out in sweep order.
use vstd::prelude::*;
use crate::point::SweepPoint;

verus! {

/// What happens at an event point. At one point the kinds are handled in
/// the order in which they are declared here.
#[derive(Clone, Copy, Debug, PartialEq, Eq, Structural)]
pub enum EventType {
    /// A single point is met.
    PointLeft,
    /// A segment ends.
    LineRight,
    /// A segment starts.
    LineLeft,
    /// The end of a single point: nothing happens.
    PointRight,
}

impl EventType {
    /// The place of the kind among the kinds at one point.
    pub open spec fn rank(self) -> int {
        match self {
            EventType::PointLeft => 0,
            EventType::LineRight => 1,
            EventType::LineLeft => 2,
            EventType::PointRight => 3,
        }
    }

    /// The place of the kind among the kinds at one point.
    pub fn rank_of(&self) -> (r: u8)
        ensures
            r == self.rank(),
    {
        match self {
            EventType::PointLeft => 0,
            EventType::LineRight => 1,
            EventType::LineLeft => 2,
            EventType::PointRight => 3,
        }
    }
}

/// An event of the sweep: at `point`, `ty` happens to the segment `payload`.
#[derive(Clone, Copy, Debug, PartialEq, Eq, Structural)]
pub struct Event {
    pub point: SweepPoint,
    pub ty: EventType,
    pub payload: usize,
}

impl Event {
    /// `self` is handled strictly before `other`: at an earlier point, or at
    /// the same point with an earlier kind. The segment does not count.
    pub open spec fn before(self, other: Event) -> bool {
        self.point.before(other.point) || (self.point == other.point && self.ty.rank()
            < other.ty.rank())
    }

    /// `self` is handled strictly before `other`.
    pub fn is_before(&self, other: &Event) -> (r: bool)
        ensures
            r == self.before(*other),
    {
        self.point.is_before(&other.point) || (self.point.same(&other.point) && self.ty.rank_of()
            < other.ty.rank_of())
    }
}

/// No event of `s` is handled before one that stands after it in `s`: the
/// last of `s` is among those handled first.
pub open spec fn descending(s: Seq<Event>) -> bool {
    forall|i: int, j: int| 0 <= i < j < s.len() ==> !(#[trigger] s[i].before(s[j]))
}

/// Where a new event `e` goes into `s`: in front of the longest tail of
/// events that are not handled after `e`. Among events of one point and
/// kind the one that was queued first thus stays nearest the end.
pub open spec fn slot(s: Seq<Event>, e: Event) -> int
    decreases s.len(),
{
    if s.len() == 0 {
        0
    } else if e.before(s.last()) {
        s.len() as int
    } else {
        slot(s.drop_last(), e)
    }
}

/// The slot is a position of the sequence, everything from it on is not
/// handled after `e`, and what stands just before it is.
pub proof fn lemma_slot(s: Seq<Event>, e: Event)
    ensures
        0 <= slot(s, e) <= s.len(),
        forall|i: int| slot(s, e) <= i < s.len() ==> !e.before(#[trigger] s[i]),
        slot(s, e) > 0 ==> e.before(s[slot(s, e) - 1]),
    decreases s.len(),
{
    if s.len() > 0 && !e.before(s.last()) {
        let t = s.drop_last();
        lemma_slot(t, e);
        assert forall|i: int| slot(s, e) <= i < s.len() implies !e.before(#[trigger] s[i]) by {
            if i < t.len() {
                assert(s[i] == t[i]);
            }
        }
        if slot(s, e) > 0 {
            assert(s[slot(s, e) - 1] == t[slot(t, e) - 1]);
        }
    }
}

/// Putting an event into its slot keeps a descending sequence descending.
pub proof fn lemma_slot_keeps_descending(s: Seq<Event>, e: Event)
    requires
        descending(s),
    ensures
        descending(s.insert(slot(s, e), e)),
{
    lemma_slot(s, e);
    let k = slot(s, e);
    let t = s.insert(k, e);
    assert forall|i: int, j: int| 0 <= i < j < t.len() implies !(#[trigger] t[i].before(t[j])) by {
        if i < k && j == k {
            assert(t[i] == s[i]);
            assert(i == k - 1 || !s[i].before(s[k - 1]));
        } else if i == k && j > k {
            assert(t[j] == s[j - 1]);
        } else if i < k && j > k {
            assert(t[i] == s[i]);
            assert(t[j] == s[j - 1]);
            assert(!s[i].before(s[j - 1]));
        } else if i > k {
            assert(t[i] == s[i - 1]);
            assert(t[j] == s[j - 1]);
            assert(!s[i - 1].before(s[j - 1]));
        } else {
            assert(t[i] == s[i]);
            assert(t[j] == s[j]);
            assert(!s[i].before(s[j]));
        }
    }
}

/// The events that are still to be handled, the next one last.
pub struct EventQueue {
    items: Vec<Event>,
}

impl View for EventQueue {
    type V = Seq<Event>;

    closed spec fn view(&self) -> Seq<Event> {
        self.items@
    }
}

impl EventQueue {
    /// The queue is kept in descending order.
    pub open spec fn wf(&self) -> bool {
        descending(self@)
    }

    /// What the queue's order says of its view.
    pub proof fn lemma_view_wf(&self)
        ensures
            self.wf() == descending(self@),
    {
    }

    /// An empty queue.
    pub fn new() -> (q: EventQueue)
        ensures
            q@ == Seq::<Event>::empty(),
            q.wf(),
    {
        EventQueue { items: Vec::new() }
    }

    /// The number of events that wait.
    pub fn len(&self) -> (n: usize)
        ensures
            n == self@.len(),
    {
        self.items.len()
    }

    /// Queues `e` in its slot.
    pub fn push(&mut self, e: Event)
        requires
            old(self).wf(),
        ensures
            final(self)@ == old(self)@.insert(slot(old(self)@, e), e),
            final(self).wf(),
    {
        let mut i: usize = self.items.len();
        proof {
            assert(self.items@.take(i as int) =~= self.items@);
        }
        while i > 0 && !e.is_before(&self.items[i - 1])
            invariant
                0 <= i <= self.items.len(),
                slot(self.items@, e) == slot(self.items@.take(i as int), e),
            decreases i,
        {
            proof {
                assert(self.items@.take(i as int).drop_last() =~= self.items@.take(i - 1));
            }
            i = i - 1;
        }
        proof {
            let head = self.items@.take(i as int);
            if i > 0 {
                assert(head.last() == self.items@[i - 1]);
            }
            assert(slot(head, e) == i);
            lemma_slot_keeps_descending(self.items@, e);
        }
        self.items.insert(i, e);
    }

    /// Takes out the event to handle next: the last of the queue, before
    /// which none of the others is handled.
    pub fn pop(&mut self) -> (r: Option<Event>)
        requires
            old(self).wf(),
        ensures
            final(self).wf(),
            old(self)@.len() == 0 ==> r is None && final(self)@ == old(self)@,
            old(self)@.len() > 0 ==> r == Some(old(self)@.last()) && final(self)@ == old(
                self,
            )@.drop_last(),
            r matches Some(e) ==> forall|i: int|
                0 <= i < old(self)@.len() ==> !(#[trigger] old(self)@[i]).before(e),
    {
        proof {
            let s = self.items@;
            assert forall|i: int| 0 <= i < s.len() implies !(#[trigger] s[i]).before(s.last()) by {
                if i < s.len() - 1 {
                    assert(!s[i].before(s[s.len() - 1]));
                }
            }
            assert forall|i: int, j: int| 0 <= i < j < s.len() - 1 implies !(
            #[trigger] s.drop_last()[i].before(s.drop_last()[j])) by {
                assert(!s[i].before(s[j]));
            }
        }
        self.items.pop()
    }

    /// The event to handle next, left in the queue.
    pub fn peek(&self) -> (r: Option<Event>)
        ensures
            self@.len() == 0 ==> r is None,
            self@.len() > 0 ==> r == Some(self@.last()),
    {
        if self.items.len() == 0 {
            None
        } else {
            Some(self.items[self.items.len() - 1])
        }
    }
}

} // verus!
