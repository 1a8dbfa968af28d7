//! Segments and points of the grid: orientation, the vertical order of two
//! pieces that the sweep line crosses, and where two pieces meet.
use vstd::prelude::*;
use crate::point::{Rel, SweepPoint};

verus! {

/// Twice the signed area of the triangle `a`, `b`, `c`: positive where `c`
/// lies to the left of the ray from `a` through `b`.
pub open spec fn cross(a: SweepPoint, b: SweepPoint, c: SweepPoint) -> int {
    (b.x - a.x) * (c.y - a.y) - (b.y - a.y) * (c.x - a.x)
}

/// Where the line through `a` and `b` stands to `c`: `Less` where `c` lies
/// above it (to the left of the ray), `Greater` where below, `Equal` on it.
pub open spec fn side(a: SweepPoint, b: SweepPoint, c: SweepPoint) -> Rel {
    if cross(a, b, c) > 0 {
        Rel::Less
    } else if cross(a, b, c) < 0 {
        Rel::Greater
    } else {
        Rel::Equal
    }
}

/// The product of two differences of coordinates.
fn mul_diff(a: i64, b: i64) -> (r: i128)
    requires
        -0x1_0000_0000 <= a <= 0x1_0000_0000,
        -0x1_0000_0000 <= b <= 0x1_0000_0000,
    ensures
        r == a * b,
        -0x1_0000_0000_0000_0000 <= r <= 0x1_0000_0000_0000_0000,
{
    assert(-0x1_0000_0000_0000_0000 <= a * b <= 0x1_0000_0000_0000_0000) by (nonlinear_arith)
        requires
            -0x1_0000_0000 <= a <= 0x1_0000_0000,
            -0x1_0000_0000 <= b <= 0x1_0000_0000,
    ;
    (a as i128) * (b as i128)
}

/// Twice the signed area of the triangle `a`, `b`, `c`.
pub fn cross_of(a: &SweepPoint, b: &SweepPoint, c: &SweepPoint) -> (r: i128)
    ensures
        r == cross(*a, *b, *c),
        -0x2_0000_0000_0000_0000 <= r <= 0x2_0000_0000_0000_0000,
{
    let abx: i64 = b.x as i64 - a.x as i64;
    let aby: i64 = b.y as i64 - a.y as i64;
    let acx: i64 = c.x as i64 - a.x as i64;
    let acy: i64 = c.y as i64 - a.y as i64;
    mul_diff(abx, acy) - mul_diff(aby, acx)
}

/// Where the line through `a` and `b` stands to `c`.
pub fn side_of(a: &SweepPoint, b: &SweepPoint, c: &SweepPoint) -> (r: Rel)
    ensures
        r == side(*a, *b, *c),
{
    let d: i128 = cross_of(a, b, c);
    if d > 0 {
        Rel::Less
    } else if d < 0 {
        Rel::Greater
    } else {
        Rel::Equal
    }
}

/// A piece of geometry that the sweep handles: a single point, or a segment
/// given by its two ends in sweep order.
#[derive(Clone, Copy, Debug, PartialEq, Eq, Structural)]
pub enum LineOrPoint {
    Point(SweepPoint),
    Line { left: SweepPoint, right: SweepPoint },
}

impl LineOrPoint {
    /// A segment's left end comes strictly before its right end.
    pub open spec fn wf(self) -> bool {
        match self {
            LineOrPoint::Point(_) => true,
            LineOrPoint::Line { left, right } => left.before(right),
        }
    }

    pub open spec fn is_line_spec(self) -> bool {
        self is Line
    }

    /// The first end in sweep order.
    pub open spec fn left_spec(self) -> SweepPoint {
        match self {
            LineOrPoint::Point(p) => p,
            LineOrPoint::Line { left, right } => left,
        }
    }

    /// The last end in sweep order.
    pub open spec fn right_spec(self) -> SweepPoint {
        match self {
            LineOrPoint::Point(p) => p,
            LineOrPoint::Line { left, right } => right,
        }
    }

    /// The piece between two points, whichever comes first: a point where
    /// they are one.
    pub open spec fn between(a: SweepPoint, b: SweepPoint) -> LineOrPoint {
        if a == b {
            LineOrPoint::Point(a)
        } else if a.before(b) {
            LineOrPoint::Line { left: a, right: b }
        } else {
            LineOrPoint::Line { left: b, right: a }
        }
    }

    /// The piece between two points, whichever comes first.
    pub fn new(a: SweepPoint, b: SweepPoint) -> (g: LineOrPoint)
        ensures
            g == LineOrPoint::between(a, b),
            g.wf(),
    {
        if a.same(&b) {
            LineOrPoint::Point(a)
        } else if a.is_before(&b) {
            LineOrPoint::Line { left: a, right: b }
        } else {
            LineOrPoint::Line { left: b, right: a }
        }
    }

    pub fn is_line(&self) -> (r: bool)
        ensures
            r == self.is_line_spec(),
    {
        match self {
            LineOrPoint::Point(_) => false,
            LineOrPoint::Line { .. } => true,
        }
    }

    pub fn left(&self) -> (p: SweepPoint)
        ensures
            p == self.left_spec(),
    {
        match self {
            LineOrPoint::Point(p) => *p,
            LineOrPoint::Line { left, right } => *left,
        }
    }

    pub fn right(&self) -> (p: SweepPoint)
        ensures
            p == self.right_spec(),
    {
        match self {
            LineOrPoint::Point(p) => *p,
            LineOrPoint::Line { left, right } => *right,
        }
    }

    /// The vertical order of two pieces where the sweep line crosses both,
    /// `None` where no sweep line does: two distinct points, a point outside
    /// a segment's span, two segments whose spans share at most an end, or a
    /// segment whose ends are not in sweep order.
    ///
    /// A point counts as a tiny vertical segment about itself, so a segment
    /// through a point is above it. Of two segments the one that starts
    /// first is held against the other's left end, then its right end.
    pub open spec fn compare(self, other: LineOrPoint) -> Option<Rel> {
        match (self, other) {
            (LineOrPoint::Point(p), LineOrPoint::Point(o)) => if p == o {
                Some(Rel::Equal)
            } else {
                None
            },
            (LineOrPoint::Point(p), LineOrPoint::Line { left, right }) => match line_point(
                left,
                right,
                p,
            ) {
                Some(r) => Some(r.flip()),
                None => None,
            },
            (LineOrPoint::Line { left, right }, LineOrPoint::Point(p)) => line_point(
                left,
                right,
                p,
            ),
            (
                LineOrPoint::Line { left: la, right: ra },
                LineOrPoint::Line { left: lb, right: rb },
            ) => if lb.before(la) {
                match line_line(lb, rb, la, ra) {
                    Some(r) => Some(r.flip()),
                    None => None,
                }
            } else {
                line_line(la, ra, lb, rb)
            },
        }
    }

    /// The vertical order of two pieces where the sweep line crosses both.
    pub fn partial_compare(&self, other: &LineOrPoint) -> (r: Option<Rel>)
        ensures
            r == self.compare(*other),
    {
        match (self, other) {
            (LineOrPoint::Point(p), LineOrPoint::Point(o)) => if p.same(o) {
                Some(Rel::Equal)
            } else {
                None
            },
            (LineOrPoint::Point(p), LineOrPoint::Line { left, right }) => match line_point_of(
                left,
                right,
                p,
            ) {
                Some(r) => Some(r.reverse()),
                None => None,
            },
            (LineOrPoint::Line { left, right }, LineOrPoint::Point(p)) => line_point_of(
                left,
                right,
                p,
            ),
            (
                LineOrPoint::Line { left: la, right: ra },
                LineOrPoint::Line { left: lb, right: rb },
            ) => if lb.is_before(la) {
                match line_line_of(lb, rb, la, ra) {
                    Some(r) => Some(r.reverse()),
                    None => None,
                }
            } else {
                line_line_of(la, ra, lb, rb)
            },
        }
    }
}

/// A segment against a point within its span: above the point where the
/// point lies on it.
pub open spec fn line_point(left: SweepPoint, right: SweepPoint, p: SweepPoint) -> Option<Rel> {
    if right.before(p) || p.before(left) {
        None
    } else if side(left, right, p) == Rel::Equal {
        Some(Rel::Greater)
    } else {
        Some(side(left, right, p))
    }
}

/// Segment `a` against segment `b` that starts no earlier: by the side of
/// `b`'s left end, then of its right end.
pub open spec fn line_line(
    la: SweepPoint,
    ra: SweepPoint,
    lb: SweepPoint,
    rb: SweepPoint,
) -> Option<Rel> {
    if !la.before(rb) || !lb.before(ra) {
        None
    } else if side(la, ra, lb) == Rel::Equal {
        Some(side(la, ra, rb))
    } else {
        Some(side(la, ra, lb))
    }
}

fn line_point_of(left: &SweepPoint, right: &SweepPoint, p: &SweepPoint) -> (r: Option<Rel>)
    ensures
        r == line_point(*left, *right, *p),
{
    if right.is_before(p) || p.is_before(left) {
        return None;
    }
    match side_of(left, right, p) {
        Rel::Equal => Some(Rel::Greater),
        s => Some(s),
    }
}

fn line_line_of(la: &SweepPoint, ra: &SweepPoint, lb: &SweepPoint, rb: &SweepPoint) -> (r: Option<
    Rel,
>)
    ensures
        r == line_line(*la, *ra, *lb, *rb),
{
    if !la.is_before(rb) || !lb.is_before(ra) {
        return None;
    }
    match side_of(la, ra, lb) {
        Rel::Equal => Some(side_of(la, ra, rb)),
        s => Some(s),
    }
}

/// A piece compares with itself exactly where it is well formed, and then
/// as equal.
pub proof fn lemma_compare_self(g: LineOrPoint)
    ensures
        g.wf() <==> g.compare(g) is Some,
        g.wf() ==> g.compare(g) == Some(Rel::Equal),
{
    match g {
        LineOrPoint::Point(p) => {},
        LineOrPoint::Line { left, right } => {
            assert(cross(left, right, left) == 0) by (nonlinear_arith);
            assert(cross(left, right, right) == 0) by (nonlinear_arith);
        },
    }
}

/// Comparing the other way round gives the opposite answer.
pub proof fn lemma_compare_flip(a: LineOrPoint, b: LineOrPoint)
    requires
        a.wf(),
        b.wf(),
    ensures
        b.compare(a) == match a.compare(b) {
            Some(r) => Some(r.flip()),
            None => None,
        },
{
    match (a, b) {
        (
            LineOrPoint::Line { left: la, right: ra },
            LineOrPoint::Line { left: lb, right: rb },
        ) => {
            if la == lb {
                assert(cross(la, ra, la) == 0) by (nonlinear_arith);
                assert(cross(la, rb, la) == 0) by (nonlinear_arith);
                assert(cross(la, ra, rb) == -cross(la, rb, ra)) by (nonlinear_arith);
            }
        },
        _ => {},
    }
}

/// The part `n / d` of a length, rounded down.
pub open spec fn part(n: int, d: int, len: int) -> int {
    (n * len) / d
}

fn part_of(n: i128, d: i128, len: i64) -> (r: i64)
    requires
        0 <= n <= d,
        0 < d <= 0x4_0000_0000_0000_0000,
        0 <= len <= 0x1_0000_0000,
    ensures
        r == part(n as int, d as int, len as int),
        0 <= r <= len,
{
    assert(0 <= n * len <= d * len) by (nonlinear_arith)
        requires
            0 <= n <= d,
            0 <= len,
    ;
    assert(d * len <= 0x4_0000_0000_0000_0000 * 0x1_0000_0000) by (nonlinear_arith)
        requires
            0 < d <= 0x4_0000_0000_0000_0000,
            0 <= len <= 0x1_0000_0000,
    ;
    let prod: i128 = n * (len as i128);
    assert(0 <= (n * len) / (d as int) <= len) by (nonlinear_arith)
        requires
            0 <= n * len <= d * len,
            0 < d,
    ;
    let q: i128 = prod / d;
    q as i64
}

/// The point of the segment from `a1` to `a2` at the part `n / d` of the
/// way, each coordinate rounded towards `a1`.
pub open spec fn point_at(a1: SweepPoint, a2: SweepPoint, n: int, d: int) -> SweepPoint {
    SweepPoint {
        x: (a1.x + part(n, d, a2.x - a1.x)) as i32,
        y: if a2.y >= a1.y {
            (a1.y + part(n, d, a2.y - a1.y)) as i32
        } else {
            (a1.y - part(n, d, a1.y - a2.y)) as i32
        },
    }
}

fn point_at_of(a1: &SweepPoint, a2: &SweepPoint, n: i128, d: i128) -> (p: SweepPoint)
    requires
        a1.x <= a2.x,
        0 <= n <= d,
        0 < d <= 0x4_0000_0000_0000_0000,
    ensures
        p == point_at(*a1, *a2, n as int, d as int),
        a1.x <= p.x <= a2.x,
        a1.y <= p.y <= a2.y || a2.y <= p.y <= a1.y,
{
    let dx: i64 = a2.x as i64 - a1.x as i64;
    let x: i64 = a1.x as i64 + part_of(n, d, dx);
    let y: i64 = if a2.y >= a1.y {
        a1.y as i64 + part_of(n, d, a2.y as i64 - a1.y as i64)
    } else {
        a1.y as i64 - part_of(n, d, a1.y as i64 - a2.y as i64)
    };
    SweepPoint { x: x as i32, y: y as i32 }
}

/// The absolute value.
pub open spec fn magnitude(v: int) -> int {
    if v < 0 {
        -v
    } else {
        v
    }
}

/// Two numbers lie strictly on one side of zero.
pub open spec fn same_side(u: int, v: int) -> bool {
    (u > 0 && v > 0) || (u < 0 && v < 0)
}

/// A crossing point moved to where the sweep can still reach it on the
/// segment that starts at `left`: one step along `x` where it would come
/// before `left` on the same vertical.
pub open spec fn nudged(p: SweepPoint, left: SweepPoint) -> SweepPoint {
    if p.x == left.x && p.y < left.y && p.x < i32::MAX {
        SweepPoint { x: (p.x + 1) as i32, y: p.y }
    } else {
        p
    }
}

/// Where two segments that cross at an inner point of both meet on the
/// grid: the point of the first at the part given by the second's two
/// areas, moved off the first's left end by one step (along `y` on a
/// vertical segment, along `x` otherwise) where rounding put it there.
pub open spec fn crossing(
    a1: SweepPoint,
    a2: SweepPoint,
    b1: SweepPoint,
    b2: SweepPoint,
) -> SweepPoint {
    let n = magnitude(cross(b1, b2, a1));
    let d = n + magnitude(cross(b1, b2, a2));
    let p = point_at(a1, a2, n, d);
    if p != a1 {
        p
    } else if a1.x == a2.x {
        if p.y < i32::MAX {
            SweepPoint { x: p.x, y: (p.y + 1) as i32 }
        } else {
            p
        }
    } else {
        if p.x < i32::MAX {
            SweepPoint { x: (p.x + 1) as i32, y: p.y }
        } else {
            p
        }
    }
}

/// What two segments have in common: nothing, one point, or, where they lie
/// on one line, the stretch that both cover.
pub open spec fn line_meet(
    a1: SweepPoint,
    a2: SweepPoint,
    b1: SweepPoint,
    b2: SweepPoint,
) -> Option<LineOrPoint> {
    let o1 = cross(a1, a2, b1);
    let o2 = cross(a1, a2, b2);
    let o3 = cross(b1, b2, a1);
    let o4 = cross(b1, b2, a2);
    if o1 == 0 && o2 == 0 {
        let l = a1.later(b1);
        let r = a2.earlier(b2);
        if l.before(r) {
            Some(LineOrPoint::Line { left: l, right: r })
        } else if l == r {
            Some(LineOrPoint::Point(l))
        } else {
            None
        }
    } else if same_side(o1, o2) || same_side(o3, o4) {
        None
    } else if o1 == 0 {
        Some(LineOrPoint::Point(b1))
    } else if o2 == 0 {
        Some(LineOrPoint::Point(b2))
    } else if o3 == 0 {
        Some(LineOrPoint::Point(a1))
    } else if o4 == 0 {
        Some(LineOrPoint::Point(a2))
    } else {
        Some(LineOrPoint::Point(crossing(a1, a2, b1, b2)))
    }
}

/// A point against a segment: the point where it lies on the segment.
pub open spec fn point_meet(p: SweepPoint, left: SweepPoint, right: SweepPoint) -> Option<
    LineOrPoint,
> {
    if cross(left, right, p) == 0 && left.before_eq(p) && p.before_eq(right) {
        Some(LineOrPoint::Point(p))
    } else {
        None
    }
}

fn magnitude_of(v: i128) -> (r: i128)
    requires
        -0x2_0000_0000_0000_0000 <= v <= 0x2_0000_0000_0000_0000,
    ensures
        r == magnitude(v as int),
        0 <= r <= 0x2_0000_0000_0000_0000,
{
    if v < 0 {
        -v
    } else {
        v
    }
}

fn same_side_of(u: i128, v: i128) -> (r: bool)
    ensures
        r == same_side(u as int, v as int),
{
    (u > 0 && v > 0) || (u < 0 && v < 0)
}

fn crossing_of(a1: &SweepPoint, a2: &SweepPoint, b1: &SweepPoint, b2: &SweepPoint) -> (p:
    SweepPoint)
    requires
        a1.x <= a2.x,
        cross(*b1, *b2, *a1) != 0,
    ensures
        p == crossing(*a1, *a2, *b1, *b2),
{
    let n: i128 = magnitude_of(cross_of(b1, b2, a1));
    let d: i128 = n + magnitude_of(cross_of(b1, b2, a2));
    let p = point_at_of(a1, a2, n, d);
    if !p.same(a1) {
        p
    } else if a1.x == a2.x {
        if p.y < i32::MAX {
            SweepPoint { x: p.x, y: p.y + 1 }
        } else {
            p
        }
    } else {
        if p.x < i32::MAX {
            SweepPoint { x: p.x + 1, y: p.y }
        } else {
            p
        }
    }
}

fn line_meet_of(a1: &SweepPoint, a2: &SweepPoint, b1: &SweepPoint, b2: &SweepPoint) -> (r: Option<
    LineOrPoint,
>)
    requires
        a1.x <= a2.x,
    ensures
        r == line_meet(*a1, *a2, *b1, *b2),
{
    let o1: i128 = cross_of(a1, a2, b1);
    let o2: i128 = cross_of(a1, a2, b2);
    let o3: i128 = cross_of(b1, b2, a1);
    let o4: i128 = cross_of(b1, b2, a2);
    if o1 == 0 && o2 == 0 {
        let l = SweepPoint::max_of(*a1, *b1);
        let r = SweepPoint::min_of(*a2, *b2);
        if l.is_before(&r) {
            Some(LineOrPoint::Line { left: l, right: r })
        } else if l.same(&r) {
            Some(LineOrPoint::Point(l))
        } else {
            None
        }
    } else if same_side_of(o1, o2) || same_side_of(o3, o4) {
        None
    } else if o1 == 0 {
        Some(LineOrPoint::Point(*b1))
    } else if o2 == 0 {
        Some(LineOrPoint::Point(*b2))
    } else if o3 == 0 {
        Some(LineOrPoint::Point(*a1))
    } else if o4 == 0 {
        Some(LineOrPoint::Point(*a2))
    } else {
        Some(LineOrPoint::Point(crossing_of(a1, a2, b1, b2)))
    }
}

fn point_meet_of(p: &SweepPoint, left: &SweepPoint, right: &SweepPoint) -> (r: Option<LineOrPoint>)
    ensures
        r == point_meet(*p, *left, *right),
{
    if cross_of(left, right, p) == 0 && left.is_before_eq(p) && p.is_before_eq(right) {
        Some(LineOrPoint::Point(*p))
    } else {
        None
    }
}

impl LineOrPoint {
    /// What two pieces have in common. Two points meet where they are one;
    /// a point meets a segment where it lies on it; a segment whose ends
    /// are not in sweep order meets no segment.
    pub open spec fn meet(self, other: LineOrPoint) -> Option<LineOrPoint> {
        match (self, other) {
            (LineOrPoint::Point(p), LineOrPoint::Point(o)) => if p == o {
                Some(self)
            } else {
                None
            },
            (LineOrPoint::Point(p), LineOrPoint::Line { left, right }) => point_meet(
                p,
                left,
                right,
            ),
            (LineOrPoint::Line { left, right }, LineOrPoint::Point(p)) => point_meet(
                p,
                left,
                right,
            ),
            (
                LineOrPoint::Line { left: a1, right: a2 },
                LineOrPoint::Line { left: b1, right: b2 },
            ) => if a1.before(a2) {
                line_meet(a1, a2, b1, b2)
            } else {
                None
            },
        }
    }

    /// What two pieces have in common, as the sweep at `self`'s left end
    /// can use it: a single point is moved so that it does not come before
    /// that end on its vertical.
    pub open spec fn meet_ordered(self, other: LineOrPoint) -> Option<LineOrPoint> {
        match self.meet(other) {
            Some(LineOrPoint::Point(p)) => Some(
                LineOrPoint::Point(nudged(p, self.left_spec())),
            ),
            m => m,
        }
    }

    /// What two pieces have in common.
    pub fn intersect_line(&self, other: &LineOrPoint) -> (r: Option<LineOrPoint>)
        ensures
            r == self.meet(*other),
    {
        match (self, other) {
            (LineOrPoint::Point(p), LineOrPoint::Point(o)) => if p.same(o) {
                Some(*self)
            } else {
                None
            },
            (LineOrPoint::Point(p), LineOrPoint::Line { left, right }) => point_meet_of(
                p,
                left,
                right,
            ),
            (LineOrPoint::Line { left, right }, LineOrPoint::Point(p)) => point_meet_of(
                p,
                left,
                right,
            ),
            (
                LineOrPoint::Line { left: a1, right: a2 },
                LineOrPoint::Line { left: b1, right: b2 },
            ) => if a1.is_before(a2) {
                line_meet_of(a1, a2, b1, b2)
            } else {
                None
            },
        }
    }

    /// What two pieces have in common, as the sweep at `self`'s left end
    /// can use it.
    pub fn intersect_line_ordered(&self, other: &LineOrPoint) -> (r: Option<LineOrPoint>)
        ensures
            r == self.meet_ordered(*other),
    {
        match self.intersect_line(other) {
            Some(LineOrPoint::Point(p)) => {
                let c = self.left();
                if p.x == c.x && p.y < c.y && p.x < i32::MAX {
                    Some(LineOrPoint::Point(SweepPoint { x: p.x + 1, y: p.y }))
                } else {
                    Some(LineOrPoint::Point(p))
                }
            },
            m => m,
        }
    }
}

/// Where two well-formed segments overlap along a line, the overlap is a
/// well-formed segment inside both of them.
pub proof fn lemma_overlap_inside(a: LineOrPoint, b: LineOrPoint)
    requires
        a is Line,
        b is Line,
        a.wf(),
        b.wf(),
        a.meet_ordered(b) matches Some(m) && m is Line,
    ensures
        a.meet_ordered(b) == a.meet(b),
        a.meet(b).unwrap().wf(),
        a.left_spec().before_eq(a.meet(b).unwrap().left_spec()),
        b.left_spec().before_eq(a.meet(b).unwrap().left_spec()),
        a.meet(b).unwrap().right_spec().before_eq(a.right_spec()),
        a.meet(b).unwrap().right_spec().before_eq(b.right_spec()),
        a.meet(b).unwrap().left_spec() == a.left_spec().later(b.left_spec()),
        a.meet(b).unwrap().right_spec() == a.right_spec().earlier(b.right_spec()),
{
}

} // verus!
