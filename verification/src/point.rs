//! Points of the integer grid in sweep order: by `x`, then by `y`.
use vstd::prelude::*;

verus! {

/// How one value stands to another in an order.
#[derive(Clone, Copy, Debug, PartialEq, Eq, Structural)]
pub enum Rel {
    Less,
    Equal,
    Greater,
}

impl Rel {
    /// The relation seen from the other side.
    pub open spec fn flip(self) -> Rel {
        match self {
            Rel::Less => Rel::Greater,
            Rel::Equal => Rel::Equal,
            Rel::Greater => Rel::Less,
        }
    }

    /// The relation seen from the other side.
    pub fn reverse(self) -> (r: Rel)
        ensures
            r == self.flip(),
    {
        match self {
            Rel::Less => Rel::Greater,
            Rel::Equal => Rel::Equal,
            Rel::Greater => Rel::Less,
        }
    }
}

/// A point of the plane. The sweep visits points by increasing `x`, and by
/// increasing `y` among points of one `x`.
#[derive(Clone, Copy, Debug, PartialEq, Eq, Structural)]
pub struct SweepPoint {
    pub x: i32,
    pub y: i32,
}

impl SweepPoint {
    /// `self` comes strictly before `other` in sweep order.
    pub open spec fn before(self, other: SweepPoint) -> bool {
        self.x < other.x || (self.x == other.x && self.y < other.y)
    }

    /// `self` comes before `other` in sweep order, or is `other`.
    pub open spec fn before_eq(self, other: SweepPoint) -> bool {
        self.before(other) || self == other
    }

    /// The later of two points in sweep order.
    pub open spec fn later(self, other: SweepPoint) -> SweepPoint {
        if self.before(other) {
            other
        } else {
            self
        }
    }

    /// The earlier of two points in sweep order.
    pub open spec fn earlier(self, other: SweepPoint) -> SweepPoint {
        if other.before(self) {
            other
        } else {
            self
        }
    }

    pub fn new(x: i32, y: i32) -> (p: SweepPoint)
        ensures
            p.x == x,
            p.y == y,
    {
        SweepPoint { x, y }
    }

    pub fn is_before(&self, other: &SweepPoint) -> (r: bool)
        ensures
            r == self.before(*other),
    {
        self.x < other.x || (self.x == other.x && self.y < other.y)
    }

    pub fn is_before_eq(&self, other: &SweepPoint) -> (r: bool)
        ensures
            r == self.before_eq(*other),
    {
        self.x < other.x || (self.x == other.x && self.y <= other.y)
    }

    pub fn same(&self, other: &SweepPoint) -> (r: bool)
        ensures
            r == (*self == *other),
    {
        self.x == other.x && self.y == other.y
    }

    /// Where `self` stands to `other` in sweep order.
    pub fn order(&self, other: &SweepPoint) -> (r: Rel)
        ensures
            r == Rel::Less <==> self.before(*other),
            r == Rel::Equal <==> *self == *other,
            r == Rel::Greater <==> other.before(*self),
    {
        if self.is_before(other) {
            Rel::Less
        } else if self.same(other) {
            Rel::Equal
        } else {
            Rel::Greater
        }
    }

    /// The later of two points in sweep order.
    pub fn max_of(a: SweepPoint, b: SweepPoint) -> (r: SweepPoint)
        ensures
            r == a.later(b),
    {
        if a.is_before(&b) {
            b
        } else {
            a
        }
    }

    /// The earlier of two points in sweep order.
    pub fn min_of(a: SweepPoint, b: SweepPoint) -> (r: SweepPoint)
        ensures
            r == a.earlier(b),
    {
        if b.is_before(&a) {
            b
        } else {
            a
        }
    }
}

/// Sweep order is a strict total order on points.
pub proof fn lemma_sweep_order_total(a: SweepPoint, b: SweepPoint, c: SweepPoint)
    ensures
        !a.before(a),
        a.before(b) || a == b || b.before(a),
        a.before(b) ==> !b.before(a),
        a.before(b) && b.before(c) ==> a.before(c),
        a.before_eq(b) && b.before(c) ==> a.before(c),
        a.before(b) && b.before_eq(c) ==> a.before(c),
{
}

} // verus!
