use sandfall::grid::{Cell, World};

fn count(w: &World) -> usize {
    w.grid.iter().filter(|c| **c == Cell::Material).count()
}

fn world_from(rows: &[&str]) -> World {
    let height = rows.len();
    let width = rows[0].len();
    let mut w = World::new(width, height);
    for (r, line) in rows.iter().enumerate() {
        for (c, ch) in line.chars().enumerate() {
            if ch == '#' {
                w.set(r, c, Cell::Material).unwrap();
            }
        }
    }
    w
}

#[test]
fn single_grain_falls_one_row() {
    let mut w = World::new(5, 5);
    w.set(0, 2, Cell::Material).unwrap();
    w.update();
    assert_eq!(w.get(1, 2), Ok(Cell::Material));
    assert_eq!(w.get(0, 2), Ok(Cell::Empty));
    assert_eq!(count(&w), 1);
}

#[test]
fn blocked_grain_slides_to_exactly_one_diagonal() {
    for _ in 0..50 {
        let mut w = World::new(3, 3);
        w.set(1, 1, Cell::Material).unwrap();
        w.set(2, 1, Cell::Material).unwrap();
        w.update();
        assert_eq!(w.get(1, 1), Ok(Cell::Empty));
        let left = w.get(2, 0) == Ok(Cell::Material);
        let right = w.get(2, 2) == Ok(Cell::Material);
        assert!(left != right);
        assert_eq!(w.get(2, 1), Ok(Cell::Material));
    }
}

#[test]
fn coin_picks_the_diagonal_on_a_tie() {
    let mut left = World::new(3, 3);
    left.set(1, 1, Cell::Material).unwrap();
    left.set(2, 1, Cell::Material).unwrap();
    let mut right = World::new(3, 3);
    right.set(1, 1, Cell::Material).unwrap();
    right.set(2, 1, Cell::Material).unwrap();
    left.advance_with(&vec![true; 9]);
    right.advance_with(&vec![false; 9]);
    assert_eq!(left.get(2, 0), Ok(Cell::Material));
    assert_eq!(left.get(2, 2), Ok(Cell::Empty));
    assert_eq!(right.get(2, 0), Ok(Cell::Empty));
    assert_eq!(right.get(2, 2), Ok(Cell::Material));
    assert_eq!(left.get(1, 1), Ok(Cell::Empty));
    assert_eq!(right.get(1, 1), Ok(Cell::Empty));
}

#[test]
fn single_free_diagonal_is_taken() {
    let mut w = world_from(&["...", ".#.", "##."]);
    w.advance_with(&vec![true; 9]);
    assert_eq!(w.grid, world_from(&["...", "...", "###"]).grid);
    let mut w = world_from(&["...", ".#.", ".##"]);
    w.advance_with(&vec![false; 9]);
    assert_eq!(w.grid, world_from(&["...", "...", "###"]).grid);
}

#[test]
fn fully_blocked_grain_stays() {
    let mut w = world_from(&["...", ".#.", "###"]);
    let before = w.grid.clone();
    w.advance_with(&vec![true; 9]);
    assert_eq!(w.grid, before);
}

#[test]
fn edge_column_has_no_outer_diagonal() {
    let mut w = world_from(&["#..", "#.."]);
    w.advance_with(&vec![true; 6]);
    assert_eq!(w.grid, world_from(&["...", "##."]).grid);
    let mut w = world_from(&["..#", "..#"]);
    w.advance_with(&vec![false; 6]);
    assert_eq!(w.grid, world_from(&["...", ".##"]).grid);
    let mut w = world_from(&["#..", "##."]);
    w.advance_with(&vec![true; 6]);
    assert_eq!(w.grid, world_from(&["#..", "##."]).grid);
}

#[test]
fn grain_falls_at_most_one_row_per_step() {
    let mut w = world_from(&["#", ".", ".", "."]);
    w.advance_with(&vec![true; 4]);
    assert_eq!(w.grid, world_from(&[".", "#", ".", "."]).grid);
    w.advance_with(&vec![true; 4]);
    assert_eq!(w.grid, world_from(&[".", ".", "#", "."]).grid);
}

#[test]
fn column_falls_together() {
    let mut w = world_from(&["#", "#", "."]);
    w.advance_with(&vec![true; 3]);
    assert_eq!(w.grid, world_from(&[".", "#", "#"]).grid);
}

#[test]
fn left_to_right_order_is_kept() {
    // The grain at column 0 slides right first and blocks the grain at column 2.
    let mut w = world_from(&["#.#", "#.#", "###"]);
    let mut w2 = world_from(&["#.#", "#.#", "###"]);
    w.advance_with(&vec![true; 9]);
    w2.advance_with(&vec![false; 9]);
    assert_eq!(w.grid, world_from(&["..#", "###", "###"]).grid);
    assert_eq!(w2.grid, w.grid);
    let mut w = world_from(&[".#.#", "....", "#.#."]);
    w.advance_with(&vec![true; 12]);
    assert_eq!(w.grid, world_from(&["....", ".#.#", "#.#."]).grid);
}

#[test]
fn material_is_conserved() {
    let mut w = world_from(&["#.##.#", ".##..#", "#..#..", ".#.##.", "##..#."]);
    let n = count(&w);
    for _ in 0..20 {
        w.update();
        assert_eq!(count(&w), n);
    }
}

#[test]
fn bottom_row_material_stays() {
    let mut w = world_from(&["#.#.#", ".#.#.", "#.#.#"]);
    for _ in 0..10 {
        w.update();
        for x in [0, 2, 4] {
            assert_eq!(w.get(2, x), Ok(Cell::Material));
        }
    }
}

#[test]
fn no_ties_means_no_randomness() {
    let rows = ["#...#", "#.#..", "##.##"];
    let mut a = world_from(&rows);
    let mut b = world_from(&rows);
    a.advance_with(&vec![true; 15]);
    b.advance_with(&vec![false; 15]);
    assert_eq!(a.grid, b.grid);
    for _ in 0..10 {
        let mut c = world_from(&rows);
        c.update();
        assert_eq!(c.grid, a.grid);
    }
}

#[test]
fn pile_settles_into_a_mound() {
    let mut w = World::new(5, 4);
    for _ in 0..4 {
        w.set(0, 2, Cell::Material).unwrap();
        for _ in 0..6 {
            w.update();
        }
    }
    assert_eq!(count(&w), 4);
    assert_eq!(w.get(3, 2), Ok(Cell::Material));
    assert_eq!(w.get(2, 2), Ok(Cell::Material));
}

#[test]
fn one_row_world_never_changes() {
    let mut w = world_from(&["#.#"]);
    w.update();
    assert_eq!(w.grid, world_from(&["#.#"]).grid);
}

#[test]
fn empty_world_steps() {
    let mut w = World::new(0, 0);
    w.update();
    assert!(w.grid.is_empty());
    let mut w = World::new(4, 0);
    w.update();
    assert!(w.grid.is_empty());
}
