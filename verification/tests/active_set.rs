use sweep::active::{Active, ActiveSet, Key, Spot};
use sweep::error::Error;
use sweep::geom::LineOrPoint;
use sweep::point::{Rel, SweepPoint};
use sweep::segment::Segment;

fn seg(a: (i32, i32), b: (i32, i32)) -> Segment {
    Segment {
        geom: LineOrPoint::new(SweepPoint::new(a.0, a.1), SweepPoint::new(b.0, b.1)),
        edge: 0,
        tags: 1,
        first_segment: true,
        left_event_done: false,
        chain: 0,
    }
}

fn text(r: Result<(), Error>) -> String {
    r.unwrap_err().message()
}

/// Horizontal segments at the heights 0, 10, 20, 30, and one that lies on
/// the second.
fn ladder() -> Vec<Segment> {
    vec![
        seg((0, 0), (100, 0)),
        seg((0, 10), (100, 10)),
        seg((0, 20), (100, 20)),
        seg((0, 30), (100, 30)),
        seg((50, 10), (150, 10)),
        seg((50, 15), (60, 15)),
    ]
}

#[test]
fn the_wrapper_takes_what_compares_with_itself() {
    assert_eq!(*Active::new(1.5f64).unwrap().get(), 1.5);
    assert_eq!(Active::new(f64::NAN).unwrap_err().message(), "Not a number");
    assert_eq!(Active::active_ref(&2.5f64).unwrap(), &2.5);
    assert_eq!(Active::active_ref(&f64::NAN).unwrap_err().message(), "Not a number");
    let bad = Key { geom: LineOrPoint::Line { left: SweepPoint::new(1, 0), right: SweepPoint::new(0, 0) }, id: 0 };
    assert_eq!(Active::new(bad).unwrap_err().message(), "Not a number");
    let good = Key { geom: seg((0, 0), (1, 0)).geom, id: 7 };
    assert_eq!(*Active::new(good).unwrap().get(), good);
}

#[test]
fn wrapped_values_have_a_total_order_or_fail() {
    let a = Active::new(1.0f64).unwrap();
    let b = Active::new(2.0f64).unwrap();
    assert_eq!(a.total_order(&b).unwrap(), Rel::Less);
    assert_eq!(b.total_order(&a).unwrap(), Rel::Greater);
    assert_eq!(a.total_order(&a).unwrap(), Rel::Equal);
    let l = Active::new(Key { geom: seg((0, 0), (10, 0)).geom, id: 0 }).unwrap();
    let r = Active::new(Key { geom: seg((10, 0), (20, 0)).geom, id: 1 }).unwrap();
    assert_eq!(l.total_order(&r).unwrap_err().message(), "Not comparable");
}

#[test]
fn keys_on_one_stretch_are_ordered_by_name() {
    let g = seg((0, 0), (10, 0)).geom;
    let over = seg((5, 0), (20, 0)).geom;
    assert_eq!(Key { geom: g, id: 1 }.partial_compare(&Key { geom: over, id: 2 }), Some(Rel::Less));
    assert_eq!(Key { geom: g, id: 3 }.partial_compare(&Key { geom: over, id: 2 }), Some(Rel::Greater));
    assert_eq!(Key { geom: g, id: 2 }.partial_compare(&Key { geom: g, id: 2 }), Some(Rel::Equal));
    let above = seg((0, 1), (10, 1)).geom;
    assert_eq!(Key { geom: g, id: 9 }.partial_compare(&Key { geom: above, id: 2 }), Some(Rel::Less));
    assert!(Key { geom: g, id: 1 } < Key { geom: over, id: 2 });
}

#[test]
fn entries_are_kept_from_the_lowest_to_the_highest() {
    let segs = ladder();
    let mut set = ActiveSet::new();
    for id in [2usize, 0, 3, 1] {
        set.insert_active(&segs, id).unwrap();
    }
    assert_eq!(set.entries(), &vec![0usize, 1, 2, 3]);
    assert_eq!(set.len(), 4);
    // One that lies on another goes next to it, by its name.
    set.insert_active(&segs, 4).unwrap();
    assert_eq!(set.entries(), &vec![0usize, 1, 4, 2, 3]);
}

#[test]
fn neighbours_of_a_member_and_of_a_stranger() {
    let segs = ladder();
    let mut set = ActiveSet::new();
    for id in [0usize, 1, 2, 3] {
        set.insert_active(&segs, id).unwrap();
    }
    assert_eq!(set.previous(&segs, 0).unwrap(), None);
    assert_eq!(set.next(&segs, 0).unwrap(), Some(1));
    assert_eq!(set.previous(&segs, 2).unwrap(), Some(1));
    assert_eq!(set.next(&segs, 2).unwrap(), Some(3));
    assert_eq!(set.next(&segs, 3).unwrap(), None);
    // The query need not be a member.
    assert_eq!(set.previous(&segs, 5).unwrap(), Some(1));
    assert_eq!(set.next(&segs, 5).unwrap(), Some(2));
    assert_eq!(set.find(&segs, 5).unwrap(), Spot::Gap(2));
    assert_eq!(set.find(&segs, 2).unwrap(), Spot::At(2));
}

#[test]
fn inserting_twice_fails_and_changes_nothing() {
    let segs = ladder();
    let mut set = ActiveSet::new();
    set.insert_active(&segs, 1).unwrap();
    assert_eq!(text(set.insert_active(&segs, 1)), "error from insert");
    assert_eq!(set.entries(), &vec![1usize]);
}

#[test]
fn removing_what_is_absent_fails_and_changes_nothing() {
    let segs = ladder();
    let mut set = ActiveSet::new();
    assert_eq!(text(set.remove_active(&segs, 1)), "error from remove");
    set.insert_active(&segs, 1).unwrap();
    set.insert_active(&segs, 2).unwrap();
    // One on the same stretch under another name is not the entry.
    assert_eq!(text(set.remove_active(&segs, 4)), "error from remove");
    assert_eq!(set.entries(), &vec![1usize, 2]);
    set.remove_active(&segs, 1).unwrap();
    assert_eq!(set.entries(), &vec![2usize]);
    assert_eq!(text(set.remove_active(&segs, 1)), "error from remove");
}

#[test]
fn a_probe_without_an_order_fails() {
    let mut segs = ladder();
    segs.push(seg((100, 5), (200, 5)));
    segs.push(Segment { geom: LineOrPoint::Line { left: SweepPoint::new(9, 0), right: SweepPoint::new(1, 0) }, ..segs[0] });
    let mut set = ActiveSet::new();
    set.insert_active(&segs, 0).unwrap();
    assert_eq!(text(set.insert_active(&segs, 6)), "Not comparable");
    assert_eq!(set.previous(&segs, 6).unwrap_err().message(), "Not comparable");
    assert_eq!(set.next(&segs, 6).unwrap_err().message(), "Not comparable");
    assert_eq!(text(set.remove_active(&segs, 6)), "Not comparable");
    assert_eq!(text(set.insert_active(&segs, 7)), "Not a number");
    assert_eq!(set.entries(), &vec![0usize]);
}
