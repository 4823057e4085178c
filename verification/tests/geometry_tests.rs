use std::collections::BTreeSet;

use snowglobe::canvas::{circle_coords, line_points, Canvas, CanvasError};

const INK: [u8; 4] = [0xc7, 0xe3, 0xe1, 0xff];

fn chebyshev(a: (i32, i32), b: (i32, i32)) -> i32 {
    (a.0 - b.0).abs().max((a.1 - b.1).abs())
}

fn as_set(points: &[(i32, i32)]) -> BTreeSet<(i32, i32)> {
    points.iter().copied().collect()
}

/// The cells whose whole tile holds `INK`, on a canvas of `cols` by `rows`
/// tiles of `ts` pixels.
fn inked_cells(frame: &[u8], cols: usize, rows: usize, ts: usize) -> BTreeSet<(i32, i32)> {
    let mut cells = BTreeSet::new();
    for x in 0..cols {
        for y in 0..rows {
            let mut all = true;
            let mut any = false;
            for i in 0..ts {
                for j in 0..ts {
                    let row = rows * ts - 1 - (y * ts + j);
                    let col = x * ts + i;
                    let at = (row * cols * ts + col) * 4;
                    let hit = frame[at..at + 4] == INK;
                    all = all && hit;
                    any = any || hit;
                }
            }
            assert_eq!(all, any);
            if all {
                cells.insert((x as i32, y as i32));
            }
        }
    }
    cells
}

#[test]
fn line_points_walks_a_shallow_line_along_x() {
    assert_eq!(line_points((0, 0), (5, 2)), vec![(0, 0), (1, 0), (2, 1), (3, 1), (4, 2), (5, 2)]);
    assert_eq!(line_points((0, 3), (6, 0)), vec![(0, 3), (1, 3), (2, 2), (3, 2), (4, 1), (5, 1), (6, 0)]);
}

#[test]
fn line_points_walks_a_steep_line_along_y() {
    assert_eq!(line_points((0, 0), (2, 5)), vec![(0, 0), (0, 1), (1, 2), (1, 3), (2, 4), (2, 5)]);
    assert_eq!(
        line_points((2, 0), (0, 7)),
        vec![(2, 0), (2, 1), (1, 2), (1, 3), (1, 4), (1, 5), (0, 6), (0, 7)]
    );
}

#[test]
fn line_points_starts_at_the_left_or_lower_end() {
    assert_eq!(line_points((5, 2), (0, 0)), vec![(0, 0), (1, 0), (2, 1), (3, 1), (4, 2), (5, 2)]);
    assert_eq!(line_points((3, 7), (3, 2)), vec![(3, 2), (3, 3), (3, 4), (3, 5), (3, 6), (3, 7)]);
    assert_eq!(
        line_points((-3, -3), (-8, -5)),
        vec![(-8, -5), (-7, -5), (-6, -4), (-5, -4), (-4, -3), (-3, -3)]
    );
}

#[test]
fn line_points_handles_lines_along_an_axis() {
    assert_eq!(
        line_points((-2, 4), (4, 4)),
        vec![(-2, 4), (-1, 4), (0, 4), (1, 4), (2, 4), (3, 4), (4, 4)]
    );
    assert_eq!(line_points((7, -1), (7, 2)), vec![(7, -1), (7, 0), (7, 1), (7, 2)]);
}

#[test]
fn line_points_of_one_point_is_that_point() {
    assert_eq!(line_points((1, 1), (1, 1)), vec![(1, 1)]);
    assert_eq!(line_points((i32::MIN, i32::MAX), (i32::MIN, i32::MAX)), vec![(i32::MIN, i32::MAX)]);
}

#[test]
fn line_points_takes_the_diagonal_as_steep() {
    assert_eq!(line_points((0, 0), (4, 4)), vec![(0, 0), (1, 1), (2, 2), (3, 3), (4, 4)]);
    assert_eq!(line_points((4, 0), (0, 4)), vec![(4, 0), (3, 1), (2, 2), (1, 3), (0, 4)]);
}

#[test]
fn line_points_reaches_across_the_whole_range_of_a_coordinate() {
    let points = line_points((i32::MAX - 3, i32::MIN), (i32::MAX, i32::MIN + 1));
    assert_eq!(
        points,
        vec![
            (i32::MAX - 3, i32::MIN),
            (i32::MAX - 2, i32::MIN),
            (i32::MAX - 1, i32::MIN + 1),
            (i32::MAX, i32::MIN + 1)
        ]
    );
}

#[test]
fn line_points_is_the_same_from_either_end() {
    for x0 in -6..=6 {
        for y0 in -6..=6 {
            for x1 in -6..=6 {
                for y1 in -6..=6 {
                    let forth = line_points((x0, y0), (x1, y1));
                    let back = line_points((x1, y1), (x0, y0));
                    assert_eq!(as_set(&forth), as_set(&back));
                    assert_eq!(forth, back);
                    let longer = (x1 - x0).abs().max((y1 - y0).abs());
                    assert_eq!(forth.len() as i32, longer + 1);
                    assert!(forth.contains(&(x0, y0)));
                    assert!(forth.contains(&(x1, y1)));
                }
            }
        }
    }
}

#[test]
fn line_points_has_no_gap() {
    let points = line_points((-20, 7), (31, -12));
    for pair in points.windows(2) {
        assert_eq!(chebyshev(pair[0], pair[1]), 1);
    }
}

#[test]
fn circle_coords_of_radius_zero_is_the_centre_eight_times() {
    assert_eq!(circle_coords(10, 10, 0), vec![(10, 10); 8]);
}

#[test]
fn circle_coords_of_radius_one() {
    assert_eq!(
        circle_coords(10, 10, 1),
        vec![(11, 10), (10, 11), (10, 11), (9, 10), (9, 10), (10, 9), (10, 9), (11, 10)]
    );
}

#[test]
fn circle_coords_of_radius_two() {
    assert_eq!(
        circle_coords(10, 10, 2),
        vec![
            (12, 10),
            (10, 12),
            (10, 12),
            (8, 10),
            (8, 10),
            (10, 8),
            (10, 8),
            (12, 10),
            (12, 11),
            (11, 12),
            (9, 12),
            (8, 11),
            (8, 9),
            (9, 8),
            (11, 8),
            (12, 9)
        ]
    );
}

#[test]
fn circle_coords_of_radius_three() {
    assert_eq!(
        circle_coords(10, 10, 3),
        vec![
            (13, 10),
            (10, 13),
            (10, 13),
            (7, 10),
            (7, 10),
            (10, 7),
            (10, 7),
            (13, 10),
            (13, 11),
            (11, 13),
            (9, 13),
            (7, 11),
            (7, 9),
            (9, 7),
            (11, 7),
            (13, 9),
            (12, 12),
            (12, 12),
            (8, 12),
            (8, 12),
            (8, 8),
            (8, 8),
            (12, 8),
            (12, 8)
        ]
    );
}

#[test]
fn circle_coords_of_radius_five_round_the_origin() {
    assert_eq!(
        circle_coords(0, 0, 5),
        vec![
            (5, 0),
            (0, 5),
            (0, 5),
            (-5, 0),
            (-5, 0),
            (0, -5),
            (0, -5),
            (5, 0),
            (5, 1),
            (1, 5),
            (-1, 5),
            (-5, 1),
            (-5, -1),
            (-1, -5),
            (1, -5),
            (5, -1),
            (5, 2),
            (2, 5),
            (-2, 5),
            (-5, 2),
            (-5, -2),
            (-2, -5),
            (2, -5),
            (5, -2),
            (4, 3),
            (3, 4),
            (-3, 4),
            (-4, 3),
            (-4, -3),
            (-3, -4),
            (3, -4),
            (4, -3)
        ]
    );
}

#[test]
fn circle_coords_of_a_negative_radius_is_empty() {
    assert!(circle_coords(3, 4, -1).is_empty());
    assert!(circle_coords(i32::MAX, i32::MIN, i32::MIN).is_empty());
}

#[test]
fn circle_coords_touches_the_range_of_a_coordinate() {
    let points = circle_coords(i32::MAX - 2, i32::MIN + 2, 2);
    assert_eq!(points.len(), 16);
    assert_eq!(points[0], (i32::MAX, i32::MIN + 2));
    assert_eq!(points[5], (i32::MAX - 2, i32::MIN));
}

#[test]
fn circle_coords_has_no_gap_along_an_octant() {
    for r in 0..60 {
        let points = circle_coords(0, 0, r);
        assert_eq!(points.len() % 8, 0);
        for i in 0..points.len().saturating_sub(8) {
            assert!(chebyshev(points[i], points[i + 8]) <= 1);
        }
    }
}

#[test]
fn circle_coords_has_no_gap_between_octants() {
    for r in 0..60 {
        let points = circle_coords(0, 0, r);
        assert_eq!(points[7], points[0]);
        assert_eq!(points[1], points[2]);
        assert_eq!(points[3], points[4]);
        assert_eq!(points[5], points[6]);
        let last = points.len() - 8;
        assert!(chebyshev(points[last], points[last + 1]) <= 1);
        assert!(chebyshev(points[last + 2], points[last + 3]) <= 1);
        assert!(chebyshev(points[last + 4], points[last + 5]) <= 1);
        assert!(chebyshev(points[last + 6], points[last + 7]) <= 1);
    }
}

#[test]
fn circle_coords_emits_small_circles_without_a_jump() {
    for r in -1..=1 {
        let points = circle_coords(4, 4, r);
        for pair in points.windows(2) {
            assert!(chebyshev(pair[0], pair[1]) <= 1);
        }
    }
    let wider = circle_coords(4, 4, 2);
    assert_eq!(chebyshev(wider[0], wider[1]), 2);
}

#[test]
fn circle_coords_takes_in_each_row_the_cell_nearest_the_circle() {
    for r in 0..80i64 {
        let points = circle_coords(0, 0, r as i32);
        for (step, point) in points.iter().step_by(8).enumerate() {
            let (x, y) = (point.0 as i64, point.1 as i64);
            assert_eq!(y, step as i64);
            let error = (x * x + y * y - r * r).abs();
            for other in -r - 2..=r + 2 {
                assert!(error <= (other * other + y * y - r * r).abs());
            }
        }
    }
}

#[test]
fn circle_coords_stays_within_one_radius_of_the_centre() {
    for r in 0..40 {
        for point in circle_coords(3, -7, r) {
            assert!((point.0 - 3).abs() <= r && (point.1 + 7).abs() <= r);
        }
    }
}

#[test]
fn draw_circle_paints_the_cells_of_circle_coords() {
    let canvas = Canvas::init(60, 60, 2).unwrap();
    for r in 0..=14u32 {
        let mut frame = vec![0u8; 60 * 60 * 4];
        assert_eq!(canvas.draw_circle(&mut frame, 15, 14, r, INK), Ok(()));
        assert_eq!(inked_cells(&frame, 30, 30, 2), as_set(&circle_coords(15, 14, r as i32)));
    }
}

#[test]
fn draw_circle_rejects_a_circle_that_leaves_the_canvas() {
    let canvas = Canvas::init(60, 60, 2).unwrap();
    let mut frame = vec![0u8; 60 * 60 * 4];
    assert_eq!(canvas.draw_circle(&mut frame, 15, 14, 15, INK), Err(CanvasError::OutOfBounds));
    assert_eq!(canvas.draw_circle(&mut frame, 15, 15, 15, INK), Err(CanvasError::OutOfBounds));
    assert_eq!(canvas.draw_circle(&mut frame, 3, 15, 4, INK), Err(CanvasError::OutOfBounds));
    assert_eq!(canvas.draw_circle(&mut frame, 15, 3, 4, INK), Err(CanvasError::OutOfBounds));
    assert_eq!(canvas.draw_circle(&mut frame, 30, 15, 0, INK), Err(CanvasError::OutOfBounds));
    assert_eq!(canvas.draw_circle(&mut frame, 15, 30, 0, INK), Err(CanvasError::OutOfBounds));
    assert_eq!(canvas.draw_circle(&mut frame, 15, 15, u32::MAX, INK), Err(CanvasError::OutOfBounds));
    assert_eq!(canvas.draw_circle(&mut frame, usize::MAX, 15, 1, INK), Err(CanvasError::OutOfBounds));
    assert_eq!(frame, vec![0u8; 60 * 60 * 4]);
    assert_eq!(canvas.draw_circle(&mut frame, 15, 14, 14, INK), Ok(()));
    let mut short = vec![0u8; 60 * 60 * 4 - 4];
    assert_eq!(canvas.draw_circle(&mut short, 15, 14, 3, INK), Err(CanvasError::OutOfBounds));
}

#[test]
fn draw_line_paints_the_cells_of_line_points() {
    let canvas = Canvas::init(24, 20, 2).unwrap();
    let ends = [
        ((0, 0), (11, 9)),
        ((11, 0), (0, 9)),
        ((2, 3), (9, 5)),
        ((9, 5), (2, 3)),
        ((4, 1), (6, 8)),
        ((3, 0), (3, 9)),
        ((3, 9), (3, 0)),
        ((0, 6), (11, 6)),
        ((11, 6), (0, 6)),
        ((5, 5), (5, 5)),
        ((1, 1), (7, 7)),
    ];
    for (start, end) in ends {
        let mut frame = vec![0u8; 24 * 20 * 4];
        assert_eq!(canvas.draw_line(&mut frame, start, end, INK), Ok(()));
        assert_eq!(inked_cells(&frame, 12, 10, 2), as_set(&line_points(start, end)));
    }
}

#[test]
fn draw_line_rejects_a_line_that_leaves_the_canvas() {
    let canvas = Canvas::init(24, 20, 2).unwrap();
    let mut frame = vec![0u8; 24 * 20 * 4];
    assert_eq!(canvas.draw_line(&mut frame, (0, 0), (12, 9), INK), Err(CanvasError::OutOfBounds));
    assert_eq!(canvas.draw_line(&mut frame, (0, 10), (11, 9), INK), Err(CanvasError::OutOfBounds));
    assert_eq!(canvas.draw_line(&mut frame, (-1, 0), (11, 9), INK), Err(CanvasError::OutOfBounds));
    assert_eq!(canvas.draw_line(&mut frame, (3, 3), (3, -1), INK), Err(CanvasError::OutOfBounds));
    assert_eq!(
        canvas.draw_line(&mut frame, (i32::MIN, i32::MIN), (i32::MAX, i32::MAX), INK),
        Err(CanvasError::OutOfBounds)
    );
    assert_eq!(frame, vec![0u8; 24 * 20 * 4]);
    let mut short = vec![0u8; 24 * 20 * 4 - 1];
    assert_eq!(canvas.draw_line(&mut short, (0, 0), (1, 1), INK), Err(CanvasError::OutOfBounds));
}

#[test]
fn draw_line_leaves_the_rest_of_the_frame() {
    let canvas = Canvas::init(24, 20, 2).unwrap();
    let mut frame = vec![5u8; 24 * 20 * 4];
    assert_eq!(canvas.draw_line(&mut frame, (1, 1), (4, 1), INK), Ok(()));
    let changed = frame.iter().filter(|&&byte| byte != 5).count();
    assert_eq!(changed, 4 * 4 * 4);
}
