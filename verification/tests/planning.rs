use string_bean::fixed::SCALE;
use string_bean::planner::PlanError;
use string_bean::raster::GridRaytrace;
use string_bean::{CountTracker, LossTracker, ThreadPlanner};

/// Converts a continuous coordinate to the library's fixed-point scale.
fn fixed(v: f64) -> i64 {
    (v * SCALE as f64) as i64
}

/// Opacity half, as a fixed-point fraction of one.
const HALF: u64 = 500_000;

/// `n` anchors evenly spaced on a circle of radius `r` around `(cx, cy)`.
fn circle_anchors(n: usize, r: f64, cx: f64, cy: f64) -> Vec<(i64, i64)> {
    (0..n)
        .map(|a| a as f64 * 2.0 * std::f64::consts::PI / n as f64)
        .map(|angle| (fixed(cx + r * angle.cos()), fixed(cy + r * angle.sin())))
        .collect()
}

/// Circular distance between two anchor indices on a ring of `n`.
fn circ_dist(a: usize, b: usize, n: usize) -> usize {
    let fwd = (b + n - a) % n;
    let bwd = (a + n - b) % n;
    fwd.min(bwd)
}

/// test use case for the ThreadPlanner
#[test]
fn main_test() {
    let width = 200;
    let height = 200;
    let image_mask = vec![0u8; width * height];
    let anchors = circle_anchors(360, 100.0, 100.0, 100.0);
    let alg = GridRaytrace;
    let mut planner = ThreadPlanner::new(
        HALF,
        &anchors,
        10,
        SCALE as u64,
        &alg,
        width,
        height,
        &image_mask,
    );

    let order = planner.get_moves(0, CountTracker(20)).unwrap();
    assert_eq!(order.len(), 21);
    for anchor in order {
        println!("{}", anchor);
    }
}

/// simple case for line tracing in the image pixel grid to be the same in both directions.
#[test]
fn lib_line_test() {
    let p1 = (fixed(2.0), fixed(5.0));
    let p2 = (fixed(6.0), fixed(8.0));

    let anchors: Vec<(i64, i64)> = Vec::new();
    let alg = GridRaytrace;
    let planner = ThreadPlanner::new(0, &anchors, 0, 0, &alg, 10, 10, &vec![0u8; 100]);

    let actual_line = planner.trace_line(p1, p2);
    let mut expected_line: Vec<((i64, i64), u64)> = vec![
        ((2, 5), SCALE as u64),
        ((3, 5), SCALE as u64),
        ((3, 6), SCALE as u64),
        ((4, 6), SCALE as u64),
        ((4, 7), SCALE as u64),
        ((5, 7), SCALE as u64),
        ((5, 8), SCALE as u64),
        ((6, 8), SCALE as u64),
    ];

    assert_eq!(expected_line, actual_line);

    let actual_line = planner.trace_line(p2, p1);
    expected_line.reverse();

    assert_eq!(expected_line, actual_line);
}

/// simple case for line tracing in the image pixel grid to be the same in both directions.
#[test]
fn core_line_test() {
    let p1 = (fixed(2.0), fixed(5.0));
    let p2 = (fixed(6.0), fixed(8.0));

    let anchors: Vec<(i64, i64)> = Vec::new();
    let alg = GridRaytrace;
    let planner = ThreadPlanner::new(0, &anchors, 0, 0, &alg, 10, 10, &vec![0u8; 100]);

    let forward = planner.trace_line(p1, p2);
    let mut backward = planner.trace_line(p2, p1);
    backward.reverse();
    assert_eq!(forward.len(), 8);
    assert_eq!(forward, backward);
}

/// The raw rasterizer emits `1 + |dx| + |dy|` full-weight cells.
#[test]
fn raytrace_cell_count() {
    let line = string_bean::raster::grid_raytrace(fixed(0.0), fixed(0.0), fixed(4.0), fixed(3.0));
    assert_eq!(line.len(), 8);
    assert!(line.iter().all(|s| s.1 == SCALE as u64));
    assert_eq!(line.first().copied(), Some(((0, 0), SCALE as u64)));
    assert_eq!(line.last().copied(), Some(((4, 3), SCALE as u64)));
}

/// End-to-end scenario: a pure black 10 by 10 image, 8 anchors on a circle of
/// radius 4 around (5, 5), gap 1, opacity one half, lightness penalty one,
/// five lines from anchor 0.
#[test]
fn end_to_end_black_image() {
    let width = 10;
    let height = 10;
    let image_mask = vec![0u8; width * height];
    let anchors = circle_anchors(8, 4.0, 5.0, 5.0);
    let alg = GridRaytrace;
    let mut planner = ThreadPlanner::new(
        HALF,
        &anchors,
        1,
        SCALE as u64,
        &alg,
        width,
        height,
        &image_mask,
    );
    let before = planner.image_mask_inverted.clone();
    assert!(before.iter().all(|&v| v == 255 * SCALE));

    let order = planner.get_moves(0, CountTracker(5)).unwrap();

    assert_eq!(order.len(), 6);
    assert_eq!(order[0], 0);
    for pair in order.windows(2) {
        assert!(circ_dist(pair[0], pair[1], 8) > 1);
    }
    for (after, before) in planner.image_mask_inverted.iter().zip(before.iter()) {
        assert!(after <= before);
    }
}

/// Committing a line decreases each touched residual by exactly the coverage
/// weight times the internal line weight.
#[test]
fn commit_exact_reduction() {
    let width = 10;
    let height = 10;
    let image_mask = vec![0u8; width * height];
    let anchors: Vec<(i64, i64)> = Vec::new();
    let alg = GridRaytrace;
    let mut planner = ThreadPlanner::new(
        HALF,
        &anchors,
        0,
        SCALE as u64,
        &alg,
        width,
        height,
        &image_mask,
    );
    // internal line weight is 255 * 0.5 in intensity units
    planner.apply_line((fixed(0.0), fixed(2.0)), (fixed(9.0), fixed(2.0)));
    for x in 0..10usize {
        assert_eq!(planner.image_mask_inverted[x + 2 * 10], 255 * SCALE - 127_500_000);
    }
    // a pixel off the line keeps its full debt
    assert_eq!(planner.image_mask_inverted[0 + 5 * 10], 255 * SCALE);
}

/// Two runs with identical inputs give byte-identical anchor orders.
#[test]
fn deterministic_runs() {
    let width = 50;
    let height = 50;
    let image_mask: Vec<u8> = (0..width * height).map(|i| (i % 251) as u8).collect();
    let anchors = circle_anchors(36, 24.0, 25.0, 25.0);
    let alg = GridRaytrace;
    let mut p1 = ThreadPlanner::new(HALF, &anchors, 2, 3 * SCALE as u64, &alg, width, height, &image_mask);
    let mut p2 = ThreadPlanner::new(HALF, &anchors, 2, 3 * SCALE as u64, &alg, width, height, &image_mask);
    let o1 = p1.get_moves(7, CountTracker(25)).unwrap();
    let o2 = p2.get_moves(7, CountTracker(25)).unwrap();
    assert_eq!(o1, o2);
}

/// A zero-line request is satisfied by the one-element order.
#[test]
fn zero_count_returns_start_only() {
    let image_mask = vec![0u8; 100];
    let anchors = circle_anchors(8, 4.0, 5.0, 5.0);
    let alg = GridRaytrace;
    let mut planner = ThreadPlanner::new(HALF, &anchors, 1, SCALE as u64, &alg, 10, 10, &image_mask);
    let order = planner.get_moves(3, CountTracker(0)).unwrap();
    assert_eq!(order, vec![3]);
}

/// A gap that excludes the whole ring surfaces as planning exhaustion with
/// the partial order as payload.
#[test]
fn gap_exhaustion_reports_partial_order() {
    let image_mask = vec![0u8; 100];
    let anchors = circle_anchors(3, 4.0, 5.0, 5.0);
    let alg = GridRaytrace;
    let mut planner = ThreadPlanner::new(HALF, &anchors, 1, SCALE as u64, &alg, 10, 10, &image_mask);
    let err: PlanError = planner.get_moves(0, CountTracker(5)).unwrap_err();
    assert_eq!(err.partial, vec![0]);
}

/// When every candidate line lies fully outside the image, the run fails
/// rather than looping on invisible lines.
#[test]
fn all_degenerate_candidates_fail() {
    let image_mask = vec![0u8; 100];
    let anchors: Vec<(i64, i64)> = vec![
        (fixed(20.0), fixed(20.0)),
        (fixed(30.0), fixed(25.0)),
        (fixed(25.0), fixed(30.0)),
    ];
    let alg = GridRaytrace;
    let mut planner = ThreadPlanner::new(HALF, &anchors, 0, SCALE as u64, &alg, 10, 10, &image_mask);
    let err = planner.get_moves(0, CountTracker(5)).unwrap_err();
    assert_eq!(err.partial, vec![0]);
}

/// A loss target above the starting loss stops the run at the first check.
#[test]
fn loss_tracker_immediate_stop() {
    let image_mask = vec![0u8; 100];
    let anchors = circle_anchors(8, 4.0, 5.0, 5.0);
    let alg = GridRaytrace;
    let mut planner = ThreadPlanner::new(HALF, &anchors, 1, SCALE as u64, &alg, 10, 10, &image_mask);
    // starting loss is 100 pixels times 255, far below the huge target
    let order = planner
        .get_moves(0, LossTracker::new(0, u128::MAX))
        .unwrap();
    assert_eq!(order, vec![0]);
}

/// An unreachable loss target ends the run at the hard stop ceiling.
#[test]
fn loss_tracker_hard_stop() {
    let image_mask = vec![0u8; 100];
    let anchors = circle_anchors(8, 4.0, 5.0, 5.0);
    let alg = GridRaytrace;
    let mut planner = ThreadPlanner::new(HALF, &anchors, 1, SCALE as u64, &alg, 10, 10, &image_mask);
    let order = planner.get_moves(0, LossTracker::new(usize::MAX, 0)).unwrap();
    assert_eq!(order.len(), 3001);
}
