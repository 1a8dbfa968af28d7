use sweep::events::{Event, EventType};
use sweep::geom::LineOrPoint;
use sweep::model::Report;
use sweep::point::SweepPoint;
use sweep::segment::{Edge, Segment};
use sweep::sweep::Sweep;

fn pt(x: i32, y: i32) -> SweepPoint {
    SweepPoint::new(x, y)
}

fn line(a: (i32, i32), b: (i32, i32)) -> LineOrPoint {
    LineOrPoint::new(pt(a.0, a.1), pt(b.0, b.1))
}

fn edge(a: (i32, i32), b: (i32, i32), tags: u8) -> Edge {
    Edge { a: pt(a.0, a.1), b: pt(b.0, b.1), tags }
}

fn rep(segment: usize, kind: EventType, geom: LineOrPoint, edge: usize, tags: u8) -> Report {
    Report { segment, kind, geom, edge, tags }
}

/// Runs the sweep to the end: the point and the reports of each event.
fn drive(sweep: &mut Sweep) -> Vec<((i32, i32), Vec<Report>)> {
    let mut steps = Vec::new();
    loop {
        let mut reports = Vec::new();
        match sweep.next_event(&mut reports) {
            Ok(Some(p)) => steps.push(((p.x, p.y), reports)),
            Ok(None) => return steps,
            Err(e) => panic!("sweep failed: {}", e.message()),
        }
    }
}

#[test]
fn a_sweep_over_nothing_has_no_event() {
    let mut sweep = Sweep::new(&vec![]);
    assert_eq!(sweep.segment_count(), 0);
    assert_eq!(sweep.pending_events(), 0);
    assert_eq!(sweep.peek_point(), None);
    let mut reports = Vec::new();
    assert_eq!(sweep.next_event(&mut reports).unwrap(), None);
    assert!(reports.is_empty());
}

#[test]
fn a_new_sweep_holds_one_piece_and_two_events_for_each_edge() {
    let sweep = Sweep::new(&vec![edge((3, 1), (0, 0), 1), edge((2, 2), (2, 2), 2)]);
    assert_eq!(sweep.segment_count(), 2);
    assert_eq!(sweep.pending_events(), 4);
    assert_eq!(
        *sweep.segment(0),
        Segment {
            geom: line((0, 0), (3, 1)),
            edge: 0,
            tags: 1,
            first_segment: true,
            left_event_done: false,
            chain: 0
        }
    );
    assert_eq!(sweep.segment(1).geom, LineOrPoint::Point(pt(2, 2)));
    assert_eq!(sweep.segment(1).chain, 1);
    assert_eq!(sweep.chain_from(1), vec![1]);
    assert!(!sweep.is_overlapping(0));
    assert_eq!(sweep.peek_point(), Some(pt(0, 0)));
}

#[test]
fn an_edge_enters_at_its_left_end_and_leaves_at_its_right_end() {
    let mut sweep = Sweep::new(&vec![edge((3, 1), (0, 0), 5)]);
    let g = line((0, 0), (3, 1));
    assert_eq!(
        drive(&mut sweep),
        vec![
            ((0, 0), vec![rep(0, EventType::LineLeft, g, 0, 5)]),
            ((3, 1), vec![rep(0, EventType::LineRight, g, 0, 5)]),
        ]
    );
    assert!(sweep.segment(0).left_event_done);
    assert_eq!(sweep.peek_point(), None);
}

#[test]
fn an_edge_without_length_is_reported_as_a_point() {
    let mut sweep = Sweep::new(&vec![edge((2, 2), (2, 2), 1)]);
    let g = LineOrPoint::Point(pt(2, 2));
    assert_eq!(
        drive(&mut sweep),
        vec![((2, 2), vec![rep(0, EventType::PointLeft, g, 0, 1)]), ((2, 2), vec![])]
    );
}

#[test]
fn a_point_on_an_active_segment_cuts_it() {
    let mut sweep = Sweep::new(&vec![edge((0, 0), (10, 0), 1), edge((4, 0), (4, 0), 2)]);
    let steps = drive(&mut sweep);
    assert_eq!(
        steps,
        vec![
            ((0, 0), vec![rep(0, EventType::LineLeft, line((0, 0), (10, 0)), 0, 1)]),
            ((4, 0), vec![rep(1, EventType::PointLeft, LineOrPoint::Point(pt(4, 0)), 1, 2)]),
            ((4, 0), vec![rep(0, EventType::LineRight, line((0, 0), (4, 0)), 0, 1)]),
            ((4, 0), vec![rep(2, EventType::LineLeft, line((4, 0), (10, 0)), 0, 1)]),
            ((4, 0), vec![]),
            ((10, 0), vec![]),
            ((10, 0), vec![rep(2, EventType::LineRight, line((4, 0), (10, 0)), 0, 1)]),
        ]
    );
    assert!(!sweep.segment(2).first_segment);
}

#[test]
fn two_edges_that_cross_are_cut_at_the_crossing() {
    let mut sweep = Sweep::new(&vec![edge((0, 0), (10, 10), 1), edge((0, 10), (10, 0), 2)]);
    let steps = drive(&mut sweep);
    assert_eq!(
        steps,
        vec![
            ((0, 0), vec![rep(0, EventType::LineLeft, line((0, 0), (10, 10)), 0, 1)]),
            ((0, 10), vec![rep(1, EventType::LineLeft, line((0, 10), (5, 5)), 1, 2)]),
            ((5, 5), vec![rep(0, EventType::LineRight, line((0, 0), (5, 5)), 0, 1)]),
            ((5, 5), vec![rep(1, EventType::LineRight, line((0, 10), (5, 5)), 1, 2)]),
            ((5, 5), vec![rep(2, EventType::LineLeft, line((5, 5), (10, 10)), 0, 1)]),
            ((5, 5), vec![rep(3, EventType::LineLeft, line((5, 5), (10, 0)), 1, 2)]),
            ((10, 0), vec![]),
            ((10, 0), vec![rep(3, EventType::LineRight, line((5, 5), (10, 0)), 1, 2)]),
            ((10, 10), vec![]),
            ((10, 10), vec![rep(2, EventType::LineRight, line((5, 5), (10, 10)), 0, 1)]),
        ]
    );
    assert_eq!(sweep.segment_count(), 4);
}

#[test]
fn an_edge_that_starts_on_another_ends_it_there_at_once() {
    let mut sweep = Sweep::new(&vec![edge((0, 0), (10, 0), 1), edge((5, 0), (5, 5), 2)]);
    let steps = drive(&mut sweep);
    assert_eq!(
        steps,
        vec![
            ((0, 0), vec![rep(0, EventType::LineLeft, line((0, 0), (10, 0)), 0, 1)]),
            (
                (5, 0),
                vec![
                    rep(0, EventType::LineRight, line((0, 0), (5, 0)), 0, 1),
                    rep(1, EventType::LineLeft, line((5, 0), (5, 5)), 1, 2),
                ]
            ),
            ((5, 0), vec![rep(2, EventType::LineLeft, line((5, 0), (10, 0)), 0, 1)]),
            ((5, 5), vec![rep(1, EventType::LineRight, line((5, 0), (5, 5)), 1, 2)]),
            ((10, 0), vec![]),
            ((10, 0), vec![rep(2, EventType::LineRight, line((5, 0), (10, 0)), 0, 1)]),
        ]
    );
}

#[test]
fn edges_that_coincide_form_a_chain_and_leave_together() {
    let mut sweep = Sweep::new(&vec![edge((0, 0), (10, 0), 1), edge((10, 0), (0, 0), 2)]);
    let g = line((0, 0), (10, 0));
    let steps = drive(&mut sweep);
    assert_eq!(
        steps,
        vec![
            ((0, 0), vec![rep(0, EventType::LineLeft, g, 0, 1)]),
            ((0, 0), vec![rep(1, EventType::LineLeft, g, 1, 2)]),
            (
                (10, 0),
                vec![rep(0, EventType::LineRight, g, 0, 1), rep(1, EventType::LineRight, g, 1, 2)]
            ),
            ((10, 0), vec![]),
        ]
    );
    assert_eq!(sweep.chain_from(0), vec![0, 1]);
    assert_eq!(sweep.chain_from(1), vec![1]);
    assert!(!sweep.is_overlapping(0));
    assert!(sweep.is_overlapping(1));
    assert_eq!(sweep.segment(1).chain, 0);
}

#[test]
fn edges_that_overlap_in_part_share_the_common_stretch() {
    let mut sweep = Sweep::new(&vec![edge((0, 0), (10, 0), 1), edge((4, 0), (14, 0), 2)]);
    let steps = drive(&mut sweep);
    let mid = line((4, 0), (10, 0));
    assert_eq!(
        steps,
        vec![
            ((0, 0), vec![rep(0, EventType::LineLeft, line((0, 0), (10, 0)), 0, 1)]),
            // The first edge ends at (4 0) at once; the second waits for the rest of the first.
            ((4, 0), vec![rep(0, EventType::LineRight, line((0, 0), (4, 0)), 0, 1)]),
            (
                (4, 0),
                vec![rep(2, EventType::LineLeft, mid, 0, 1), rep(1, EventType::LineLeft, mid, 1, 2)]
            ),
            ((10, 0), vec![]),
            (
                (10, 0),
                vec![rep(2, EventType::LineRight, mid, 0, 1), rep(1, EventType::LineRight, mid, 1, 2)]
            ),
            ((10, 0), vec![]),
            ((10, 0), vec![rep(3, EventType::LineLeft, line((10, 0), (14, 0)), 1, 2)]),
            ((14, 0), vec![]),
            ((14, 0), vec![rep(3, EventType::LineRight, line((10, 0), (14, 0)), 1, 2)]),
        ]
    );
}

#[test]
fn a_cut_of_a_chain_copies_its_members_onto_the_new_piece() {
    // Two edges on one stretch, crossed by a third.
    let mut sweep = Sweep::new(&vec![
        edge((0, 0), (10, 0), 1),
        edge((0, 0), (10, 0), 2),
        edge((5, -5), (5, 5), 4),
    ]);
    let steps = drive(&mut sweep);
    let mut left: Vec<(usize, u8, LineOrPoint)> = Vec::new();
    for (_, reports) in steps.iter() {
        for r in reports {
            if r.kind == EventType::LineRight {
                left.push((r.edge, r.tags, r.geom));
            }
        }
    }
    left.sort_by_key(|(e, _, g)| (*e, g.left().x, g.left().y));
    assert_eq!(
        left,
        vec![
            (0, 1, line((0, 0), (5, 0))),
            (0, 1, line((5, 0), (10, 0))),
            (1, 2, line((0, 0), (5, 0))),
            (1, 2, line((5, 0), (10, 0))),
            (2, 4, line((5, -5), (5, 0))),
            (2, 4, line((5, 0), (5, 5))),
        ]
    );
}

#[test]
fn a_stale_event_is_dropped() {
    let mut sweep = Sweep::new(&vec![edge((0, 0), (10, 0), 1)]);
    let mut reports = Vec::new();
    sweep.next_event(&mut reports).unwrap();
    assert_eq!(reports.len(), 1);
    // The segment does not end at (7 0): such an event is left over from before a cut.
    let stale = Event { point: pt(7, 0), ty: EventType::LineRight, payload: 0 };
    for _ in 0..3 {
        assert_eq!(sweep.handle_event(stale, &mut reports).unwrap(), false);
        assert_eq!(reports.len(), 1);
        assert_eq!(sweep.pending_events(), 1);
        assert_eq!(sweep.segment_count(), 1);
    }
    // The true one is handled once; after it the segment is gone.
    let due = Event { point: pt(10, 0), ty: EventType::LineRight, payload: 0 };
    assert_eq!(sweep.handle_event(due, &mut reports).unwrap(), true);
    assert_eq!(reports.len(), 2);
    assert_eq!(sweep.handle_event(due, &mut reports).unwrap_err().message(), "error from remove");
    assert_eq!(reports.len(), 2);
}

#[test]
fn starting_a_segment_twice_fails() {
    let mut sweep = Sweep::new(&vec![edge((0, 0), (10, 0), 1)]);
    let mut reports = Vec::new();
    let start = Event { point: pt(0, 0), ty: EventType::LineLeft, payload: 0 };
    assert_eq!(sweep.handle_event(start, &mut reports).unwrap(), true);
    assert_eq!(sweep.handle_event(start, &mut reports).unwrap_err().message(), "error from insert");
    assert_eq!(reports.len(), 1);
}

#[test]
fn the_piece_below_a_starting_segment() {
    let mut sweep = Sweep::new(&vec![
        edge((0, 0), (10, 0), 1),
        edge((0, 5), (10, 5), 1),
        edge((2, 3), (8, 3), 2),
        edge((2, -3), (8, -3), 2),
        edge((20, 0), (30, 0), 2),
    ]);
    let mut reports = Vec::new();
    sweep.next_event(&mut reports).unwrap();
    sweep.next_event(&mut reports).unwrap();
    assert_eq!(sweep.peek_point(), Some(pt(2, -3)));
    assert_eq!(sweep.prev_active(2).unwrap().map(|s| s.edge), Some(0));
    assert_eq!(sweep.prev_active(3).unwrap().map(|s| s.edge), None);
    assert_eq!(sweep.prev_active(1).unwrap().map(|s| s.edge), Some(0));
    // A segment that the sweep line does not reach yet has no place.
    assert_eq!(sweep.prev_active(4).unwrap_err().message(), "Not comparable");
}

#[test]
fn a_dense_grid_of_nearly_parallel_quads_is_swept_to_the_end() {
    // Thin quads, nearly upright and nearly level, whose sides are off
    // the axes by one step and lie one step apart from their neighbours.
    let s = 1 << 20;
    let mut edges = Vec::new();
    for k in -4..5 {
        let a = k * (s / 5);
        let b = a + s / 8;
        let up = [(a, -2 * s), (a - 1, 2 * s), (b - 1, 2 * s), (b, -2 * s)];
        let level = [(-2 * s, a), (2 * s, a - 1), (2 * s, b - 1), (-2 * s, b)];
        for (quad, tags) in [(up, 1u8), (level, 2u8)] {
            for i in 0..4 {
                edges.push(edge(quad[i], quad[(i + 1) % 4], tags));
            }
        }
        // A near-duplicate of each, one step off.
        for (quad, tags) in [(up, 1u8), (level, 2u8)] {
            for i in 0..4 {
                let (p, q) = (quad[i], quad[(i + 1) % 4]);
                edges.push(edge((p.0 + 1, p.1), (q.0, q.1 + 1), tags));
            }
        }
    }
    let mut sweep = Sweep::new(&edges);
    let steps = drive(&mut sweep);
    let entered = steps.iter().flat_map(|(_, r)| r.iter()).filter(|r| r.kind == EventType::LineLeft).count();
    let left = steps.iter().flat_map(|(_, r)| r.iter()).filter(|r| r.kind == EventType::LineRight).count();
    assert_eq!(entered, left);
    assert!(left > edges.len());
    for w in steps.windows(2) {
        assert!(w[0].0 <= w[1].0);
    }
}

#[test]
fn draining_handles_every_event_in_turn() {
    let edges = vec![
        edge((0, 0), (10, 10), 1),
        edge((0, 10), (10, 0), 2),
        edge((0, 0), (10, 0), 1),
        edge((4, 0), (14, 0), 2),
        edge((7, 7), (7, 7), 2),
    ];
    let mut by_steps = Sweep::new(&edges);
    let stepwise: Vec<Report> = drive(&mut by_steps).into_iter().flat_map(|(_, r)| r).collect();
    let mut at_once = Sweep::new(&edges);
    let mut reports = Vec::new();
    at_once.drain(&mut reports).unwrap();
    assert_eq!(reports, stepwise);
    assert_eq!(at_once.pending_events(), 0);
    assert_eq!(at_once.peek_point(), None);
    assert_eq!(at_once.segment_count(), by_steps.segment_count());
    // Nothing waits: draining again does nothing.
    at_once.drain(&mut reports).unwrap();
    assert_eq!(reports, stepwise);
}

#[test]
fn draining_stops_at_the_first_failure() {
    let mut sweep = Sweep::new(&vec![edge((0, 0), (10, 0), 1)]);
    let mut reports = Vec::new();
    // The start is handled out of turn, so its own turn finds the segment active.
    let start = Event { point: pt(0, 0), ty: EventType::LineLeft, payload: 0 };
    sweep.handle_event(start, &mut reports).unwrap();
    assert_eq!(sweep.drain(&mut reports).unwrap_err().message(), "error from insert");
    assert_eq!(reports.len(), 1);
    assert_eq!(sweep.pending_events(), 1);
}

#[test]
fn the_members_of_a_chain_are_cut_with_it() {
    let mut sweep = Sweep::new(&vec![
        edge((0, 0), (10, 0), 1),
        edge((0, 0), (10, 0), 2),
        edge((5, -5), (5, 5), 4),
    ]);
    let mut reports = Vec::new();
    sweep.drain(&mut reports).unwrap();
    // The two coinciding edges were cut at (5 0) together.
    assert_eq!(sweep.segment(0).geom, line((0, 0), (5, 0)));
    assert_eq!(sweep.segment(1).geom, line((0, 0), (5, 0)));
    let rest: Vec<usize> = (0..sweep.segment_count())
        .filter(|i| sweep.segment(*i).geom == line((5, 0), (10, 0)))
        .collect();
    assert_eq!(rest.len(), 2);
    assert_eq!(sweep.chain_from(rest[0]), rest);
    assert_eq!(sweep.segment(rest[0]).edge, 0);
    assert_eq!(sweep.segment(rest[1]).edge, 1);
    assert_eq!(sweep.segment(rest[1]).tags, 2);
}
