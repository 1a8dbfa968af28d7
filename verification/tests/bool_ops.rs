use std::str::FromStr;

use sweep::events::EventType;
use sweep::geom::LineOrPoint;
use sweep::model::Report;
use sweep::point::SweepPoint;
use sweep::segment::Edge;
use sweep::sweep::Sweep;

const FIRST: u8 = 1;
const SECOND: u8 = 2;

/// The rings of a polygon or multi-polygon text, each closed.
fn rings_of(text: &str) -> Vec<Vec<(f64, f64)>> {
    let polygons = match wkt::Wkt::<f64>::from_str(text).unwrap() {
        wkt::Wkt::Polygon(p) => vec![p],
        wkt::Wkt::MultiPolygon(mp) => mp.polygons().to_vec(),
        _ => panic!("not a polygon"),
    };
    let mut rings = Vec::new();
    for polygon in polygons.iter() {
        for ring in polygon.rings() {
            let mut pts: Vec<(f64, f64)> = ring.coords().iter().map(|c| (c.x, c.y)).collect();
            if pts.len() > 1 && pts[0] != pts[pts.len() - 1] {
                pts.push(pts[0]);
            }
            rings.push(pts);
        }
    }
    rings
}

fn grid(p: (f64, f64), scale: f64) -> SweepPoint {
    SweepPoint::new((p.0 * scale).round() as i32, (p.1 * scale).round() as i32)
}

/// The edges of the rings of `text` on the grid, without those of no length.
fn edges_of(text: &str, tags: u8, scale: f64, edges: &mut Vec<Edge>) {
    for ring in rings_of(text) {
        if ring.len() <= 3 {
            continue;
        }
        for w in ring.windows(2) {
            let (a, b) = (grid(w[0], scale), grid(w[1], scale));
            if a != b {
                edges.push(Edge { a, b, tags });
            }
        }
    }
}

/// Runs the sweep over `edges` to the end and gives what each event reported.
fn run(edges: &Vec<Edge>) -> Vec<Vec<Report>> {
    let mut sweep = Sweep::new(edges);
    let mut steps = Vec::new();
    let mut last: Option<SweepPoint> = None;
    loop {
        let mut reports = Vec::new();
        let peeked = sweep.peek_point();
        match sweep.next_event(&mut reports) {
            Ok(Some(pt)) => {
                assert_eq!(peeked, Some(pt));
                if let Some(l) = last {
                    assert!(l.x < pt.x || (l.x == pt.x && l.y <= pt.y), "{:?} after {:?}", pt, l);
                }
                last = Some(pt);
                steps.push(reports);
            }
            Ok(None) => {
                assert_eq!(peeked, None);
                assert!(reports.is_empty());
                return steps;
            }
            Err(e) => panic!("sweep failed: {}", e.message()),
        }
    }
}

fn ends(g: &LineOrPoint) -> ((i32, i32), (i32, i32)) {
    match g {
        LineOrPoint::Point(p) => ((p.x, p.y), (p.x, p.y)),
        LineOrPoint::Line { left, right } => ((left.x, left.y), (right.x, right.y)),
    }
}

/// Every edge is covered once, from end to end, by the pieces reported as
/// leaving, and every piece that leaves has entered before.
fn check_cover(edges: &Vec<Edge>, steps: &Vec<Vec<Report>>) {
    let mut entered: Vec<usize> = Vec::new();
    let mut pieces: Vec<Vec<((i32, i32), (i32, i32))>> = vec![Vec::new(); edges.len()];
    for step in steps {
        for r in step {
            match r.kind {
                EventType::LineLeft => entered.push(r.segment),
                EventType::LineRight => {
                    assert!(entered.contains(&r.segment), "{:?} left before it entered", r);
                    pieces[r.edge].push(ends(&r.geom));
                }
                _ => {}
            }
        }
    }
    for (i, e) in edges.iter().enumerate() {
        let whole = ends(&LineOrPoint::new(e.a, e.b));
        let mut ps = pieces[i].clone();
        ps.sort();
        assert!(!ps.is_empty(), "edge {} was never reported", i);
        assert_eq!(ps[0].0, whole.0);
        for w in ps.windows(2) {
            assert_eq!(w[0].1, w[1].0, "edge {} has a gap or a double report", i);
        }
        assert_eq!(ps[ps.len() - 1].1, whole.1);
    }
}

/// The stretches reported as leaving, each with the operands of all the
/// pieces that left on it together.
fn stretches(steps: &Vec<Vec<Report>>) -> Vec<(((i32, i32), (i32, i32)), u8)> {
    let mut out: Vec<(((i32, i32), (i32, i32)), u8)> = Vec::new();
    for step in steps {
        let mut here: Vec<(((i32, i32), (i32, i32)), u8)> = Vec::new();
        for r in step {
            if r.kind == EventType::LineRight {
                let g = ends(&r.geom);
                match here.iter_mut().find(|(h, _)| *h == g) {
                    Some((_, tags)) => *tags |= r.tags,
                    None => here.push((g, r.tags)),
                }
            }
        }
        out.extend(here);
    }
    out.sort();
    out
}

/// The corners of the one ring that the stretches form when joined end to
/// end.
fn ring_of(stretches: &Vec<((i32, i32), (i32, i32))>) -> Vec<(i32, i32)> {
    let mut left: Vec<((i32, i32), (i32, i32))> = stretches.clone();
    let first = left.remove(0);
    let mut ring = vec![first.0, first.1];
    while !left.is_empty() {
        let at = *ring.last().unwrap();
        let i = left.iter().position(|s| s.0 == at || s.1 == at).expect("the outline is open");
        let s = left.remove(i);
        ring.push(if s.0 == at { s.1 } else { s.0 });
    }
    assert_eq!(ring.first(), ring.last(), "the outline is not closed");
    ring.pop();
    ring
}

/// Whether two rings have the same corners in the same cyclic order, in
/// either direction.
fn same_ring(a: &[(i32, i32)], b: &[(i32, i32)]) -> bool {
    if a.len() != b.len() {
        return false;
    }
    let n = a.len();
    (0..n).any(|shift| {
        (0..n).all(|i| a[(i + shift) % n] == b[i]) || (0..n).all(|i| a[(shift + n - i) % n] == b[i])
    })
}

fn check_sweep(wkt1: &str, wkt2: &str, scale: f64) -> Vec<Vec<Report>> {
    let mut edges = Vec::new();
    edges_of(wkt1, FIRST, scale, &mut edges);
    edges_of(wkt2, SECOND, scale, &mut edges);
    let steps = run(&edges);
    check_cover(&edges, &steps);
    steps
}

#[test]
fn test_rect_overlapping() {
    // Two rects that overlap
    let wkt1 = "POLYGON((0 0,1 0,1 1,0 1,0 0))";
    let wkt2 = "POLYGON((0.5 1,2 1,2 2,0.5 2,0.5 1))";

    let wkt_union = "MULTIPOLYGON(((2 1,1 1,1 0,0 0,0 1,0.5 1,0.5 2,2 2,2 1)))";
    let scale = 1024.0;
    let steps = check_sweep(wkt1, wkt2, scale);

    // The boundary of the union is what only one of the two covers.
    let mut outline: Vec<((i32, i32), (i32, i32))> =
        stretches(&steps).into_iter().filter(|(_, tags)| *tags != FIRST | SECOND).map(|(g, _)| g).collect();
    outline.sort();
    let mut expected: Vec<((i32, i32), (i32, i32))> = Vec::new();
    for ring in rings_of(wkt_union) {
        for w in ring.windows(2) {
            expected.push(ends(&LineOrPoint::new(grid(w[0], scale), grid(w[1], scale))));
        }
    }
    expected.sort();
    assert_eq!(outline, expected);

    // Joined end to end the outline is one ring, the expected one.
    let ring = ring_of(&outline);
    let want: Vec<(i32, i32)> = rings_of(wkt_union)[0].iter().map(|p| {
        let g = grid(*p, scale);
        (g.x, g.y)
    }).collect();
    assert!(same_ring(&ring, &want[..want.len() - 1]), "{:?} is not {:?}", ring, want);

    // What both cover is the stretch from (0.5 1) to (1 1), reported once.
    let shared: Vec<((i32, i32), (i32, i32))> =
        stretches(&steps).into_iter().filter(|(_, tags)| *tags == FIRST | SECOND).map(|(g, _)| g).collect();
    assert_eq!(shared, vec![((512, 1024), (1024, 1024))]);
}

#[test]
fn test_ext_in_hole() {
    // A union which outputs a ring inside a hole inside a ext.
    let wkt1 = "POLYGON((0 0, 40 0, 40 40, 0 40, 0 0), (10 10, 30 10, 30 30, 10 30, 10 10))";
    let wkt2 = "POLYGON((11 11, 29 11, 29 29, 11 29, 11 11), (15 15, 25 15, 25 25, 15 25, 15 15))";
    let steps = check_sweep(wkt1, wkt2, 1024.0);
    // Nothing meets: the sixteen edges enter and leave whole, each alone.
    assert_eq!(stretches(&steps).len(), 16);
    assert_eq!(steps.iter().map(|s| s.len()).sum::<usize>(), 32);
    assert!(steps.iter().all(|s| s.len() == 1));
}

#[test]
fn test_invalid_simple() {
    // Polygon with holes and invalid
    let wkt1 = "POLYGON((0 0, 2 2, 2 0, 0 0), (1 1, 2 1, 1 0))";
    let wkt2 = "POLYGON EMPTY";
    check_sweep(wkt1, wkt2, 1024.0);
}

#[test]
fn test_invalid_loops() {
    let wkt1 = "POLYGON((0 0, 2 2, 0 4, -2 2, 0 0, 1 2, 0 3, -1 2, 0 0))";
    let wkt2 = "POLYGON EMPTY";
    check_sweep(wkt1, wkt2, 1024.0);
}

#[test]
fn test_complex_rects() {
    let wkt1 = "MULTIPOLYGON(((-1 -2,-1.0000000000000002 2,-0.8823529411764707 2,-0.8823529411764706 -2,-1 -2)),((-0.7647058823529411 -2,-0.7647058823529412 2,-0.6470588235294118 2,-0.6470588235294118 -2,-0.7647058823529411 -2)),((-0.5294117647058824 -2,-0.5294117647058825 2,-0.41176470588235287 2,-0.4117647058823529 -2,-0.5294117647058824 -2)),((-0.2941176470588236 -2,-0.2941176470588236 2,-0.17647058823529418 2,-0.17647058823529416 -2,-0.2941176470588236 -2)),((-0.05882352941176472 -2,-0.05882352941176472 2,0.05882352941176472 2,0.05882352941176472 -2,-0.05882352941176472 -2)),((0.17647058823529416 -2,0.17647058823529416 2,0.29411764705882365 2,0.2941176470588236 -2,0.17647058823529416 -2)),((0.4117647058823528 -2,0.41176470588235287 2,0.5294117647058821 2,0.5294117647058822 -2,0.4117647058823528 -2)),((0.6470588235294117 -2,0.6470588235294118 2,0.7647058823529411 2,0.7647058823529411 -2,0.6470588235294117 -2)),((0.8823529411764706 -2,0.8823529411764707 2,1.0000000000000002 2,1 -2,0.8823529411764706 -2)))";
    let wkt2 = "MULTIPOLYGON(((-2 -1,2 -1.0000000000000002,2 -0.8823529411764707,-2 -0.8823529411764706,-2 -1)),((-2 -0.7647058823529411,2 -0.7647058823529412,2 -0.6470588235294118,-2 -0.6470588235294118,-2 -0.7647058823529411)),((-2 -0.5294117647058824,2 -0.5294117647058825,2 -0.41176470588235287,-2 -0.4117647058823529,-2 -0.5294117647058824)),((-2 -0.2941176470588236,2 -0.2941176470588236,2 -0.17647058823529418,-2 -0.17647058823529416,-2 -0.2941176470588236)),((-2 -0.05882352941176472,2 -0.05882352941176472,2 0.05882352941176472,-2 0.05882352941176472,-2 -0.05882352941176472)),((-2 0.17647058823529416,2 0.17647058823529416,2 0.29411764705882365,-2 0.2941176470588236,-2 0.17647058823529416)),((-2 0.4117647058823528,2 0.41176470588235287,2 0.5294117647058821,-2 0.5294117647058822,-2 0.4117647058823528)),((-2 0.6470588235294117,2 0.6470588235294118,2 0.7647058823529411,-2 0.7647058823529411,-2 0.6470588235294117)),((-2 0.8823529411764706,2 0.8823529411764707,2 1.0000000000000002,-2 1,-2 0.8823529411764706)))";

    let scale = (1u32 << 29) as f64;
    for r1 in rings_of(wkt1) {
        for r2 in rings_of(wkt2) {
            let mut edges = Vec::new();
            for (ring, tags) in [(&r1, FIRST), (&r2, SECOND)] {
                for w in ring.windows(2) {
                    let (a, b) = (grid(w[0], scale), grid(w[1], scale));
                    if a != b {
                        edges.push(Edge { a, b, tags });
                    }
                }
            }
            let steps = run(&edges);
            check_cover(&edges, &steps);
        }
    }

    // All eighteen at once.
    check_sweep(wkt1, wkt2, scale);
}

#[test]
fn test_complex_rects1() {
    let wkt1 = "MULTIPOLYGON(((-1 -2,-1.0000000000000002 2,-0.8823529411764707 2,-0.8823529411764706 -2,-1 -2)))";
    let wkt2 = "MULTIPOLYGON(((-2 -1,2 -1.0000000000000002,2 -0.8823529411764707,-2 -0.8823529411764706,-2 -1)))";
    check_sweep(wkt1, wkt2, (1u32 << 29) as f64);
}
