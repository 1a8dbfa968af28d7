use sweep::geom::{cross_of, side_of, LineOrPoint};
use sweep::point::{Rel, SweepPoint};
use sweep::segment::{split_segments, SplitSegments};

fn pt(x: i32, y: i32) -> SweepPoint {
    SweepPoint::new(x, y)
}

fn line(a: (i32, i32), b: (i32, i32)) -> LineOrPoint {
    LineOrPoint::new(pt(a.0, a.1), pt(b.0, b.1))
}

#[test]
fn points_are_ordered_by_x_then_y() {
    assert!(pt(0, 9).is_before(&pt(1, 0)));
    assert!(pt(1, 0).is_before(&pt(1, 1)));
    assert!(!pt(1, 1).is_before(&pt(1, 1)));
    assert!(pt(1, 1).is_before_eq(&pt(1, 1)));
    assert_eq!(pt(2, 0).order(&pt(1, 5)), Rel::Greater);
    assert_eq!(pt(1, 5).order(&pt(1, 5)), Rel::Equal);
    assert_eq!(pt(1, 4).order(&pt(1, 5)), Rel::Less);
    assert_eq!(SweepPoint::max_of(pt(1, 4), pt(1, 5)), pt(1, 5));
    assert_eq!(SweepPoint::min_of(pt(1, 4), pt(0, 5)), pt(0, 5));
    assert_eq!(Rel::Less.reverse(), Rel::Greater);
    assert_eq!(Rel::Equal.reverse(), Rel::Equal);
}

#[test]
fn cross_is_twice_the_signed_area() {
    assert_eq!(cross_of(&pt(0, 0), &pt(4, 0), &pt(0, 3)), 12);
    assert_eq!(cross_of(&pt(0, 0), &pt(4, 0), &pt(0, -3)), -12);
    assert_eq!(cross_of(&pt(1, 1), &pt(3, 3), &pt(7, 7)), 0);
    assert_eq!(side_of(&pt(0, 0), &pt(4, 0), &pt(2, 1)), Rel::Less);
    assert_eq!(side_of(&pt(0, 0), &pt(4, 0), &pt(2, -1)), Rel::Greater);
    assert_eq!(side_of(&pt(0, 0), &pt(4, 0), &pt(9, 0)), Rel::Equal);
}

#[test]
fn cross_of_the_widest_points_does_not_overflow() {
    let lo = i32::MIN;
    let hi = i32::MAX;
    let span = hi as i128 - lo as i128;
    assert_eq!(cross_of(&pt(lo, lo), &pt(hi, lo), &pt(lo, hi)), span * span);
    assert_eq!(cross_of(&pt(lo, lo), &pt(lo, hi), &pt(hi, lo)), -span * span);
}

#[test]
fn a_piece_has_its_ends_in_sweep_order() {
    let g = line((5, 1), (2, 7));
    assert!(g.is_line());
    assert_eq!(g.left(), pt(2, 7));
    assert_eq!(g.right(), pt(5, 1));
    let p = line((3, 3), (3, 3));
    assert!(!p.is_line());
    assert_eq!(p, LineOrPoint::Point(pt(3, 3)));
    assert_eq!(p.left(), p.right());
}

#[test]
fn pieces_compare_from_below_to_above() {
    let low = line((0, 0), (10, 0));
    let high = line((0, 5), (10, 5));
    assert_eq!(low.partial_compare(&high), Some(Rel::Less));
    assert_eq!(high.partial_compare(&low), Some(Rel::Greater));
    assert_eq!(low.partial_compare(&low), Some(Rel::Equal));
    // The one that starts later is held against the other.
    let late = line((4, 2), (6, -9));
    assert_eq!(low.partial_compare(&late), Some(Rel::Less));
    assert_eq!(late.partial_compare(&low), Some(Rel::Greater));
    // On a common left end the right end decides.
    let up = line((0, 0), (10, 3));
    assert_eq!(low.partial_compare(&up), Some(Rel::Less));
    // Segments on one line that overlap are equal.
    assert_eq!(low.partial_compare(&line((5, 0), (20, 0))), Some(Rel::Equal));
}

#[test]
fn pieces_that_no_sweep_line_crosses_do_not_compare() {
    let a = line((0, 0), (10, 0));
    assert_eq!(a.partial_compare(&line((10, 0), (20, 0))), None);
    assert_eq!(a.partial_compare(&line((11, 5), (20, 0))), None);
    assert_eq!(line((11, 5), (20, 0)).partial_compare(&a), None);
    assert_eq!(a.partial_compare(&LineOrPoint::Point(pt(11, 0))), None);
    assert_eq!(LineOrPoint::Point(pt(-1, 0)).partial_compare(&a), None);
    assert_eq!(LineOrPoint::Point(pt(1, 0)).partial_compare(&LineOrPoint::Point(pt(1, 1))), None);
    // Ends that are not in sweep order compare with nothing, not even themselves.
    let bad = LineOrPoint::Line { left: pt(5, 0), right: pt(1, 0) };
    assert_eq!(bad.partial_compare(&bad), None);
}

#[test]
fn a_point_is_below_a_segment_through_it() {
    let a = line((0, 0), (10, 0));
    let on = LineOrPoint::Point(pt(5, 0));
    assert_eq!(a.partial_compare(&on), Some(Rel::Greater));
    assert_eq!(on.partial_compare(&a), Some(Rel::Less));
    assert_eq!(a.partial_compare(&LineOrPoint::Point(pt(5, 1))), Some(Rel::Less));
    assert_eq!(LineOrPoint::Point(pt(5, 1)).partial_compare(&a), Some(Rel::Greater));
    assert_eq!(on.partial_compare(&on), Some(Rel::Equal));
}

#[test]
fn segments_cross_at_a_grid_point() {
    let a = line((0, 0), (10, 10));
    let b = line((0, 10), (10, 0));
    assert_eq!(a.intersect_line(&b), Some(LineOrPoint::Point(pt(5, 5))));
    assert_eq!(b.intersect_line(&a), Some(LineOrPoint::Point(pt(5, 5))));
    assert_eq!(a.intersect_line_ordered(&b), Some(LineOrPoint::Point(pt(5, 5))));
}

#[test]
fn a_crossing_off_the_grid_is_rounded_towards_the_left_end() {
    // They cross at (1.5, 1.5).
    let a = line((0, 0), (3, 3));
    let b = line((0, 3), (3, 0));
    assert_eq!(a.intersect_line(&b), Some(LineOrPoint::Point(pt(1, 1))));
    // Seen from the falling segment the same crossing is (1, 3 - 1).
    assert_eq!(b.intersect_line(&a), Some(LineOrPoint::Point(pt(1, 2))));
}

#[test]
fn a_crossing_rounded_onto_the_left_end_moves_one_step() {
    // They cross at (0.5, 0.5), which rounds to the left end of the first.
    let a = line((0, 0), (1, 1));
    let b = line((0, 1), (1, 0));
    assert_eq!(a.intersect_line(&b), Some(LineOrPoint::Point(pt(1, 0))));
    // On a vertical segment the step is along y: the crossing is (0, 0.5).
    let v = line((0, 0), (0, 1));
    let h = line((-1, 1), (1, 0));
    assert_eq!(v.intersect_line(&h), Some(LineOrPoint::Point(pt(0, 1))));
}

#[test]
fn a_crossing_before_the_left_end_on_its_vertical_is_moved_behind_it() {
    // They cross at (0.5, 5), which rounds to (0, 5): before (0, 10).
    let a = line((0, 10), (1, 0));
    let b = line((-5, 5), (5, 5));
    assert_eq!(a.intersect_line(&b), Some(LineOrPoint::Point(pt(0, 5))));
    assert_eq!(a.intersect_line_ordered(&b), Some(LineOrPoint::Point(pt(1, 5))));
}

#[test]
fn segments_that_touch_meet_at_the_touching_end() {
    let a = line((0, 0), (10, 0));
    assert_eq!(a.intersect_line(&line((4, 0), (4, 7))), Some(LineOrPoint::Point(pt(4, 0))));
    assert_eq!(a.intersect_line(&line((4, -7), (4, 0))), Some(LineOrPoint::Point(pt(4, 0))));
    assert_eq!(line((4, 0), (4, 7)).intersect_line(&a), Some(LineOrPoint::Point(pt(4, 0))));
    assert_eq!(a.intersect_line(&line((10, 0), (12, 5))), Some(LineOrPoint::Point(pt(10, 0))));
    assert_eq!(a.intersect_line(&line((0, 0), (-3, 5))), Some(LineOrPoint::Point(pt(0, 0))));
}

#[test]
fn segments_apart_do_not_meet() {
    let a = line((0, 0), (10, 0));
    assert_eq!(a.intersect_line(&line((0, 1), (10, 1))), None);
    assert_eq!(a.intersect_line(&line((11, -1), (11, 1))), None);
    assert_eq!(a.intersect_line(&line((4, 1), (4, 7))), None);
    assert_eq!(a.intersect_line(&line((11, 0), (20, 0))), None);
    let bad = LineOrPoint::Line { left: pt(5, 0), right: pt(1, 0) };
    assert_eq!(bad.intersect_line(&a), None);
}

#[test]
fn segments_on_one_line_meet_in_the_stretch_that_both_cover() {
    let a = line((0, 0), (10, 0));
    assert_eq!(a.intersect_line(&line((5, 0), (20, 0))), Some(line((5, 0), (10, 0))));
    assert_eq!(a.intersect_line(&line((-5, 0), (20, 0))), Some(a));
    assert_eq!(a.intersect_line(&line((2, 0), (3, 0))), Some(line((2, 0), (3, 0))));
    assert_eq!(a.intersect_line(&line((10, 0), (20, 0))), Some(LineOrPoint::Point(pt(10, 0))));
    assert_eq!(a.intersect_line_ordered(&line((5, 0), (20, 0))), Some(line((5, 0), (10, 0))));
    let d = line((0, 0), (6, 6));
    assert_eq!(d.intersect_line(&line((2, 2), (9, 9))), Some(line((2, 2), (6, 6))));
}

#[test]
fn a_point_meets_a_segment_that_it_lies_on() {
    let a = line((0, 0), (10, 10));
    let on = LineOrPoint::Point(pt(3, 3));
    assert_eq!(on.intersect_line(&a), Some(on));
    assert_eq!(a.intersect_line(&on), Some(on));
    assert_eq!(LineOrPoint::Point(pt(3, 4)).intersect_line(&a), None);
    assert_eq!(LineOrPoint::Point(pt(11, 11)).intersect_line(&a), None);
    assert_eq!(LineOrPoint::Point(pt(0, 0)).intersect_line(&a), Some(LineOrPoint::Point(pt(0, 0))));
    assert_eq!(on.intersect_line(&on), Some(on));
    assert_eq!(on.intersect_line(&LineOrPoint::Point(pt(3, 4))), None);
}

#[test]
fn a_point_inside_cuts_a_segment_in_two() {
    let g = line((0, 0), (10, 0));
    assert_eq!(
        split_segments(&g, &LineOrPoint::Point(pt(4, 0))),
        SplitSegments::SplitOnce { overlap: None, left: line((0, 0), (4, 0)), right: line((4, 0), (10, 0)) }
    );
    // The point need not lie on the segment.
    assert_eq!(
        split_segments(&g, &LineOrPoint::Point(pt(4, 1))),
        SplitSegments::SplitOnce { overlap: None, left: line((0, 0), (4, 1)), right: line((4, 1), (10, 0)) }
    );
}

#[test]
fn a_point_at_an_end_or_outside_cuts_nothing() {
    let g = line((0, 0), (10, 0));
    let same = SplitSegments::Unchanged { overlap: false };
    assert_eq!(split_segments(&g, &LineOrPoint::Point(pt(0, 0))), same);
    assert_eq!(split_segments(&g, &LineOrPoint::Point(pt(10, 0))), same);
    assert_eq!(split_segments(&g, &LineOrPoint::Point(pt(-1, 0))), same);
    assert_eq!(split_segments(&g, &LineOrPoint::Point(pt(10, 1))), same);
    assert_eq!(split_segments(&LineOrPoint::Point(pt(1, 1)), &LineOrPoint::Point(pt(1, 1))), same);
    assert_eq!(split_segments(&LineOrPoint::Point(pt(1, 1)), &g), same);
}

#[test]
fn a_stretch_cuts_off_what_lies_before_and_after_it() {
    let g = line((0, 0), (10, 0));
    assert_eq!(split_segments(&g, &g), SplitSegments::Unchanged { overlap: true });
    assert_eq!(
        split_segments(&g, &line((0, 0), (6, 0))),
        SplitSegments::SplitOnce { overlap: Some(false), left: line((0, 0), (6, 0)), right: line((6, 0), (10, 0)) }
    );
    assert_eq!(
        split_segments(&g, &line((6, 0), (10, 0))),
        SplitSegments::SplitOnce { overlap: Some(true), left: line((0, 0), (6, 0)), right: line((6, 0), (10, 0)) }
    );
    assert_eq!(
        split_segments(&g, &line((3, 0), (6, 0))),
        SplitSegments::SplitTwice {
            left: line((0, 0), (3, 0)),
            middle: line((3, 0), (6, 0)),
            right: line((6, 0), (10, 0)),
        }
    );
    // A stretch that reaches outside cuts nothing.
    assert_eq!(split_segments(&g, &line((3, 0), (16, 0))), SplitSegments::Unchanged { overlap: false });
    assert_eq!(split_segments(&g, &line((-3, 0), (6, 0))), SplitSegments::Unchanged { overlap: false });
}
