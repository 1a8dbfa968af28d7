//! The pieces of input edges that the sweep works on, the chains of pieces
//! that coincide, and how a piece is cut where it meets another.
use vstd::prelude::*;
use crate::events::{Event, EventType};
use crate::geom::LineOrPoint;
use crate::point::SweepPoint;

verus! {

/// An edge of the input: two ends in any order, and the operands whose
/// boundary it belongs to, one bit for each.
#[derive(Clone, Copy, Debug, PartialEq, Eq, Structural)]
pub struct Edge {
    pub a: SweepPoint,
    pub b: SweepPoint,
    pub tags: u8,
}

/// A piece of an input edge.
#[derive(Clone, Copy, Debug, PartialEq, Eq, Structural)]
pub struct Segment {
    /// What the piece covers now. A cut moves the right end only.
    pub geom: LineOrPoint,
    /// The input edge that the piece is part of, by its place in the input.
    pub edge: usize,
    /// The operands of that edge.
    pub tags: u8,
    /// Whether the piece starts where its edge starts.
    pub first_segment: bool,
    /// Whether the piece has been reported as entering the sweep.
    pub left_event_done: bool,
    /// The chain of coinciding pieces that the piece belongs to.
    pub chain: usize,
}

impl Segment {
    /// The event at which the piece enters the sweep.
    pub open spec fn left_event(self, id: usize) -> Event {
        Event {
            point: self.geom.left_spec(),
            ty: if self.geom is Line {
                EventType::LineLeft
            } else {
                EventType::PointLeft
            },
            payload: id,
        }
    }

    /// The event at which the piece leaves the sweep.
    pub open spec fn right_event(self, id: usize) -> Event {
        Event {
            point: self.geom.right_spec(),
            ty: if self.geom is Line {
                EventType::LineRight
            } else {
                EventType::PointRight
            },
            payload: id,
        }
    }

    /// The event at which the piece enters the sweep.
    pub fn left_event_of(&self, id: usize) -> (e: Event)
        ensures
            e == self.left_event(id),
    {
        Event {
            point: self.geom.left(),
            ty: if self.geom.is_line() {
                EventType::LineLeft
            } else {
                EventType::PointLeft
            },
            payload: id,
        }
    }

    /// The event at which the piece leaves the sweep.
    pub fn right_event_of(&self, id: usize) -> (e: Event)
        ensures
            e == self.right_event(id),
    {
        Event {
            point: self.geom.right(),
            ty: if self.geom.is_line() {
                EventType::LineRight
            } else {
                EventType::PointRight
            },
            payload: id,
        }
    }
}

/// How a piece is cut by what it has in common with another.
#[allow(inconsistent_fields)]
#[derive(Clone, Copy, Debug, PartialEq, Eq, Structural)]
pub enum SplitSegments {
    /// No cut. `overlap` tells whether the whole piece is the common part.
    Unchanged { overlap: bool },
    /// One cut. `overlap` is `None` where the common part is the point of
    /// the cut, `Some(false)` where it is `left`, `Some(true)` where it is
    /// `right`.
    SplitOnce { overlap: Option<bool>, left: LineOrPoint, right: LineOrPoint },
    /// Two cuts, with the common part in the middle.
    SplitTwice { left: LineOrPoint, middle: LineOrPoint, right: LineOrPoint },
}

impl SplitSegments {
    /// The parts are segments with their ends in sweep order, the first
    /// starts where `g` starts, each next one where the one before it
    /// ends, and the last ends where `g` ends: together they cover `g`
    /// once.
    pub open spec fn tiles(self, g: LineOrPoint) -> bool {
        match self {
            SplitSegments::Unchanged { overlap } => true,
            SplitSegments::SplitOnce { overlap, left, right } => {
                &&& left is Line && left.wf()
                &&& right is Line && right.wf()
                &&& left.left_spec() == g.left_spec()
                &&& left.right_spec() == right.left_spec()
                &&& right.right_spec() == g.right_spec()
            },
            SplitSegments::SplitTwice { left, middle, right } => {
                &&& left is Line && left.wf()
                &&& middle is Line && middle.wf()
                &&& right is Line && right.wf()
                &&& left.left_spec() == g.left_spec()
                &&& left.right_spec() == middle.left_spec()
                &&& middle.right_spec() == right.left_spec()
                &&& right.right_spec() == g.right_spec()
            },
        }
    }

    /// The part that is the common stretch, where there is one.
    pub open spec fn shared(self, g: LineOrPoint) -> Option<LineOrPoint> {
        match self {
            SplitSegments::Unchanged { overlap } => if overlap {
                Some(g)
            } else {
                None
            },
            SplitSegments::SplitOnce { overlap, left, right } => match overlap {
                Some(false) => Some(left),
                Some(true) => Some(right),
                None => None,
            },
            SplitSegments::SplitTwice { left, middle, right } => Some(middle),
        }
    }
}

/// A point strictly inside a segment cuts it in two; any other point cuts
/// nothing.
pub open spec fn cut_at(p: SweepPoint, q: SweepPoint, r: SweepPoint) -> SplitSegments {
    if p.before(r) && r.before(q) {
        SplitSegments::SplitOnce {
            overlap: None,
            left: LineOrPoint::Line { left: p, right: r },
            right: LineOrPoint::Line { left: r, right: q },
        }
    } else {
        SplitSegments::Unchanged { overlap: false }
    }
}

/// A stretch from `r1` to `r2` inside the segment from `p` to `q` cuts off
/// what lies before and after it; a stretch that is not inside cuts
/// nothing.
pub open spec fn cut_along(
    p: SweepPoint,
    q: SweepPoint,
    r1: SweepPoint,
    r2: SweepPoint,
) -> SplitSegments {
    if !(p.before_eq(r1) && r1.before(r2) && r2.before_eq(q)) {
        SplitSegments::Unchanged { overlap: false }
    } else if p == r1 {
        if r2 == q {
            SplitSegments::Unchanged { overlap: true }
        } else {
            SplitSegments::SplitOnce {
                overlap: Some(false),
                left: LineOrPoint::Line { left: p, right: r2 },
                right: LineOrPoint::Line { left: r2, right: q },
            }
        }
    } else if r2 == q {
        SplitSegments::SplitOnce {
            overlap: Some(true),
            left: LineOrPoint::Line { left: p, right: r1 },
            right: LineOrPoint::Line { left: r1, right: q },
        }
    } else {
        SplitSegments::SplitTwice {
            left: LineOrPoint::Line { left: p, right: r1 },
            middle: LineOrPoint::Line { left: r1, right: r2 },
            right: LineOrPoint::Line { left: r2, right: q },
        }
    }
}

/// How the piece `g` is cut by `common`, what it shares with another
/// piece. A single point is never cut.
pub open spec fn split(g: LineOrPoint, common: LineOrPoint) -> SplitSegments {
    match g {
        LineOrPoint::Point(_) => SplitSegments::Unchanged { overlap: false },
        LineOrPoint::Line { left: p, right: q } => match common {
            LineOrPoint::Point(r) => cut_at(p, q, r),
            LineOrPoint::Line { left: r1, right: r2 } => cut_along(p, q, r1, r2),
        },
    }
}

/// How the piece `g` is cut by `common`.
pub fn split_segments(g: &LineOrPoint, common: &LineOrPoint) -> (r: SplitSegments)
    ensures
        r == split(*g, *common),
        r.tiles(*g),
        r.shared(*g) matches Some(part) ==> part == *common,
{
    match g {
        LineOrPoint::Point(_) => SplitSegments::Unchanged { overlap: false },
        LineOrPoint::Line { left: p, right: q } => match common {
            LineOrPoint::Point(r) => {
                if p.is_before(r) && r.is_before(q) {
                    SplitSegments::SplitOnce {
                        overlap: None,
                        left: LineOrPoint::Line { left: *p, right: *r },
                        right: LineOrPoint::Line { left: *r, right: *q },
                    }
                } else {
                    SplitSegments::Unchanged { overlap: false }
                }
            },
            LineOrPoint::Line { left: r1, right: r2 } => {
                if !(p.is_before_eq(r1) && r1.is_before(r2) && r2.is_before_eq(q)) {
                    SplitSegments::Unchanged { overlap: false }
                } else if p.same(r1) {
                    if r2.same(q) {
                        SplitSegments::Unchanged { overlap: true }
                    } else {
                        SplitSegments::SplitOnce {
                            overlap: Some(false),
                            left: LineOrPoint::Line { left: *p, right: *r2 },
                            right: LineOrPoint::Line { left: *r2, right: *q },
                        }
                    }
                } else if r2.same(q) {
                    SplitSegments::SplitOnce {
                        overlap: Some(true),
                        left: LineOrPoint::Line { left: *p, right: *r1 },
                        right: LineOrPoint::Line { left: *r1, right: *q },
                    }
                } else {
                    SplitSegments::SplitTwice {
                        left: LineOrPoint::Line { left: *p, right: *r1 },
                        middle: LineOrPoint::Line { left: *r1, right: *r2 },
                        right: LineOrPoint::Line { left: *r2, right: *q },
                    }
                }
            },
        },
    }
}

/// Whatever a piece is cut by, the parts cover it once from end to end,
/// and the part named as shared is the common stretch itself.
pub proof fn lemma_split_covers(g: LineOrPoint, common: LineOrPoint)
    ensures
        split(g, common).tiles(g),
        split(g, common).shared(g) matches Some(part) ==> part == common,
{
}

} // verus!
