use slam_rs::{bresenham_algorithm, GridIndex};

fn line(x0: i32, y0: i32, x1: i32, y1: i32) -> Vec<(i32, i32)> {
    bresenham_algorithm(&GridIndex::new(x0, y0), &GridIndex::new(x1, y1))
        .iter()
        .map(|grid| (grid.x, grid.y))
        .collect()
}

fn check_shape(x0: i32, y0: i32, x1: i32, y1: i32) {
    let cells = line(x0, y0, x1, y1);
    let dx = (x1 as i64 - x0 as i64).abs();
    let dy = (y1 as i64 - y0 as i64).abs();
    assert_eq!(cells.len() as i64, dx.max(dy) + 1);
    assert_eq!(cells[0], (x0, y0));
    assert_eq!(cells[cells.len() - 1], (x1, y1));
    for pair in cells.windows(2) {
        let step_x = (pair[1].0 as i64 - pair[0].0 as i64).abs();
        let step_y = (pair[1].1 as i64 - pair[0].1 as i64).abs();
        assert!(step_x <= 1 && step_y <= 1);
        assert!(step_x + step_y >= 1);
    }
}

#[test]
fn single_cell_when_start_is_end() {
    assert_eq!(line(4, -9, 4, -9), vec![(4, -9)]);
    assert_eq!(line(0, 0, 0, 0), vec![(0, 0)]);
}

#[test]
fn shallow_line_to_the_right() {
    assert_eq!(line(0, 0, 5, 2), vec![(0, 0), (1, 0), (2, 1), (3, 1), (4, 2), (5, 2)]);
}

#[test]
fn steep_line_upwards() {
    assert_eq!(line(0, 0, 2, 5), vec![(0, 0), (0, 1), (1, 2), (1, 3), (2, 4), (2, 5)]);
}

#[test]
fn line_across_the_origin() {
    assert_eq!(line(3, -2, -1, 1), vec![(3, -2), (2, -1), (1, -1), (0, 0), (-1, 1)]);
}

#[test]
fn diagonal_line() {
    assert_eq!(line(0, 0, -4, -4), vec![(0, 0), (-1, -1), (-2, -2), (-3, -3), (-4, -4)]);
}

#[test]
fn vertical_and_horizontal_lines() {
    assert_eq!(line(1, 1, 1, 4), vec![(1, 1), (1, 2), (1, 3), (1, 4)]);
    assert_eq!(line(2, 0, -2, 0), vec![(2, 0), (1, 0), (0, 0), (-1, 0), (-2, 0)]);
}

#[test]
fn a_half_step_stays_with_the_start() {
    assert_eq!(line(0, 0, 2, 1), vec![(0, 0), (1, 0), (2, 1)]);
    assert_eq!(line(0, 0, 1, 2), vec![(0, 0), (0, 1), (1, 2)]);
    assert_eq!(
        line(0, 0, 6, 3),
        vec![(0, 0), (1, 0), (2, 1), (3, 1), (4, 2), (5, 2), (6, 3)]
    );
}

#[test]
fn shallow_line_to_the_left() {
    assert_eq!(
        line(0, 0, -7, 3),
        vec![(0, 0), (-1, 0), (-2, 1), (-3, 1), (-4, 2), (-5, 2), (-6, 3), (-7, 3)]
    );
}

#[test]
fn line_between_two_world_points() {
    // Cells of half a metre, counted from (-10, -10): the points (2.7, 3.2)
    // and (10.9, 7.4) fall in the cells (25, 26) and (42, 35).
    let cell = |world: f64| ((world + 10.0) / 0.5).round() as i32;
    let cells = line(cell(2.7), cell(3.2), cell(10.9), cell(7.4));
    assert_eq!(
        cells,
        vec![
            (25, 26),
            (26, 27),
            (27, 27),
            (28, 28),
            (29, 28),
            (30, 29),
            (31, 29),
            (32, 30),
            (33, 30),
            (34, 31),
            (35, 31),
            (36, 32),
            (37, 32),
            (38, 33),
            (39, 33),
            (40, 34),
            (41, 34),
            (42, 35)
        ]
    );
}

#[test]
fn endpoints_connectivity_and_count_in_every_direction() {
    for x1 in -12..=12 {
        for y1 in -12..=12 {
            check_shape(0, 0, x1, y1);
            check_shape(5, -3, x1, y1);
        }
    }
}

#[test]
fn no_cell_occurs_twice() {
    for (x1, y1) in [(9, 4), (-9, 4), (4, -9), (-4, -9), (7, 7), (0, 8), (8, 0)] {
        let cells = line(1, 2, x1, y1);
        for i in 0..cells.len() {
            for j in (i + 1)..cells.len() {
                assert_ne!(cells[i], cells[j]);
            }
        }
    }
}

#[test]
fn cells_follow_the_rounded_slope() {
    // Along the longer axis one cell per element; along the shorter one the
    // slope, rounded to the nearest cell, a half towards the start.
    let (dx, dy) = (11i64, 4i64);
    let cells = line(0, 0, dx as i32, dy as i32);
    for (k, cell) in cells.iter().enumerate() {
        let k = k as i64;
        assert_eq!(cell.0 as i64, k);
        assert_eq!(cell.1 as i64, (2 * k * dy + dx - 1) / (2 * dx));
    }
}

#[test]
fn lines_at_the_ends_of_the_coordinate_range() {
    check_shape(i32::MAX - 3, i32::MAX, i32::MAX, i32::MAX - 2);
    check_shape(i32::MIN, i32::MIN + 4, i32::MIN + 2, i32::MIN);
    assert_eq!(
        line(i32::MAX - 2, i32::MIN, i32::MAX, i32::MIN + 1),
        vec![(i32::MAX - 2, i32::MIN), (i32::MAX - 1, i32::MIN), (i32::MAX, i32::MIN + 1)]
    );
}

#[test]
fn reversed_line_has_the_same_length() {
    for (x1, y1) in [(9, 4), (-3, 8), (6, -6), (-5, -2)] {
        assert_eq!(line(0, 0, x1, y1).len(), line(x1, y1, 0, 0).len());
    }
}
