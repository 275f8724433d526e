use sandfall::grid::Cell;
use sandfall::line::{draw_line, trace};

fn touching(p: (usize, usize), q: (usize, usize)) -> bool {
    p.0.abs_diff(q.0) <= 1 && p.1.abs_diff(q.1) <= 1
}

#[test]
fn degenerate_segment_is_one_point() {
    assert_eq!(trace(5, 5, 5, 5), vec![(5, 5)]);
    assert_eq!(trace(0, 0, 0, 0), vec![(0, 0)]);
}

#[test]
fn shallow_segment() {
    assert_eq!(trace(0, 0, 3, 2), vec![(0, 0), (1, 1), (2, 1), (3, 2)]);
    assert_eq!(trace(3, 2, 0, 0), vec![(3, 2), (2, 1), (1, 1), (0, 0)]);
}

#[test]
fn steep_segment() {
    assert_eq!(trace(2, 0, 0, 5), vec![(2, 0), (2, 1), (1, 2), (1, 3), (0, 4), (0, 5)]);
}

#[test]
fn horizontal_and_rising_segments() {
    assert_eq!(trace(1, 1, 4, 1), vec![(1, 1), (2, 1), (3, 1), (4, 1)]);
    assert_eq!(trace(0, 3, 4, 0), vec![(0, 3), (1, 2), (2, 2), (3, 1), (4, 0)]);
    assert_eq!(trace(0, 0, 0, 3), vec![(0, 0), (0, 1), (0, 2), (0, 3)]);
    assert_eq!(trace(0, 0, 3, 3), vec![(0, 0), (1, 1), (2, 2), (3, 3)]);
}

#[test]
fn endpoints_and_no_gaps() {
    let pts = [(0, 0), (7, 2), (3, 9), (12, 12), (5, 0), (0, 11), (9, 4)];
    for &(x0, y0) in &pts {
        for &(x1, y1) in &pts {
            let r = trace(x0, y0, x1, y1);
            assert_eq!(r[0], (x0, y0));
            assert_eq!(*r.last().unwrap(), (x1, y1));
            assert_eq!(r.len(), x0.abs_diff(x1).max(y0.abs_diff(y1)) + 1);
            for i in 0..r.len() - 1 {
                assert!(touching(r[i], r[i + 1]));
            }
        }
    }
}

#[test]
fn draw_line_marks_segment_inside_grid() {
    let mut grid = vec![Cell::Empty; 16];
    draw_line(&mut grid, 4, 4, 0, 0, 3, 2);
    let marked: Vec<usize> = (0..16).filter(|i| grid[*i] == Cell::Material).collect();
    assert_eq!(marked, vec![0, 4 + 1, 4 + 2, 8 + 3]);
}

#[test]
fn draw_line_skips_points_outside_grid() {
    let mut grid = vec![Cell::Empty; 9];
    draw_line(&mut grid, 3, 3, 1, 1, 5, 1);
    assert_eq!(
        grid,
        vec![
            Cell::Empty,
            Cell::Empty,
            Cell::Empty,
            Cell::Empty,
            Cell::Material,
            Cell::Material,
            Cell::Empty,
            Cell::Empty,
            Cell::Empty,
        ]
    );
}
